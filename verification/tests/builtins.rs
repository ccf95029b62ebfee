//! Shell builtins.
#![allow(dead_code)]
use amla_sandbox_shell::commands::{builtins, Exit};
use amla_sandbox_shell::context::CmdContext;
use amla_sandbox_shell::env::Environment;
use amla_sandbox_shell::error::VfsError;
use amla_sandbox_shell::fs::{DirEntry, Node, Snapshot};
use amla_sandbox_shell::io_handle::IoHandle;

/// A tree of directories and files.
struct Vfs {
    dirs: Vec<String>,
    files: Vec<(String, Vec<u8>)>,
}

#[derive(Clone, Copy)]
enum Permission {
    ReadWrite,
}

impl Vfs {
    fn new() -> Vfs {
        Vfs { dirs: vec!["/".to_string(), "/workspace".to_string()], files: Vec::new() }
    }

    fn is_dir(&self, path: &str) -> bool {
        self.dirs.iter().any(|d| d == path)
    }

    fn has(&self, path: &str) -> bool {
        self.is_dir(path) || self.files.iter().any(|(f, _)| f == path)
    }

    fn create_dir(&mut self, path: &str, _p: Permission) -> Result<(), VfsError> {
        if self.has(path) {
            return Err(VfsError::AlreadyExists(path.to_string()));
        }
        self.dirs.push(path.to_string());
        Ok(())
    }

    fn create_dir_all(&mut self, path: &str, p: Permission) -> Result<(), VfsError> {
        let mut at = String::new();
        for part in path.split('/').filter(|s| !s.is_empty()) {
            at = format!("{at}/{part}");
            if !self.is_dir(&at) {
                self.create_dir(&at, p)?;
            }
        }
        Ok(())
    }

    fn write_file(&mut self, path: &str, data: &[u8], _p: Permission) -> Result<(), VfsError> {
        let parent = match path.rfind('/') {
            Some(0) | None => "/",
            Some(i) => &path[..i],
        };
        if !self.is_dir(parent) {
            return Err(VfsError::NotFound(parent.to_string()));
        }
        self.files.retain(|(f, _)| f != path);
        self.files.push((path.to_string(), data.to_vec()));
        Ok(())
    }

    fn read_file(&self, path: &str) -> Result<Vec<u8>, VfsError> {
        match self.files.iter().find(|(f, _)| f == path) {
            Some((_, data)) => Ok(data.clone()),
            None => Err(VfsError::NotFound(path.to_string())),
        }
    }

    fn children(&self, dir: &str) -> Vec<DirEntry> {
        let prefix = if dir == "/" { "/".to_string() } else { format!("{dir}/") };
        let mut entries: Vec<(String, bool)> = Vec::new();
        let dirs = self.dirs.iter().map(|d| (d, true));
        let files = self.files.iter().map(|(f, _)| (f, false));
        for (path, is_dir) in dirs.chain(files) {
            if let Some(name) = path.strip_prefix(&prefix) {
                if !name.is_empty() && !name.contains('/') {
                    entries.push((name.to_string(), is_dir));
                }
            }
        }
        entries.sort();
        entries.into_iter().map(|(name, is_dir)| DirEntry { name, is_dir }).collect()
    }

    fn snapshot(&self) -> Snapshot {
        let mut s = Snapshot::new();
        for d in &self.dirs {
            s.nodes.push((d.clone(), Node::Dir(self.children(d))));
        }
        for (f, data) in &self.files {
            s.nodes.push((f.clone(), Node::File(Some(data.len() as u64))));
        }
        s
    }
}

fn context(argv: &[String], cwd: &str, env: &Environment, fs: Snapshot) -> CmdContext {
    CmdContext::new(
        argv.to_vec(),
        IoHandle::null(),
        IoHandle::buffer(),
        IoHandle::buffer(),
        cwd.to_string(),
        env.duplicate(),
        fs,
    )
}

/// What a builtin changes.
struct Effects {
    cwd: Option<String>,
    env_set: Vec<(String, String)>,
    env_unset: Vec<String>,
    pipefail: Option<bool>,
}

struct Ended {
    code: i32,
    out: String,
    err: String,
    effects: Effects,
}

fn ended(exit: Exit) -> Ended {
    let e = exit.effects;
    let pair = |i: usize| (e.env_set.at(i).0.to_string(), e.env_set.at(i).1.to_string());
    Ended {
        code: exit.said.code,
        out: exit.said.out,
        err: exit.said.err,
        effects: Effects {
            env_set: (0..e.env_set.len()).map(pair).collect(),
            env_unset: (0..e.env_unset.len()).map(|i| e.env_unset.at(i).to_string()).collect(),
            cwd: e.cwd,
            pipefail: e.pipefail,
        },
    }
}

fn make_ctx(argv: Vec<&str>, cwd: &str, env: Environment) -> CmdContext {
    let mut vfs = Vfs::new();
    vfs.create_dir_all("/workspace/home/user", Permission::ReadWrite).unwrap();
    vfs.create_dir_all("/workspace/subdir", Permission::ReadWrite).unwrap();
    let argv: Vec<String> = argv.into_iter().map(String::from).collect();
    context(&argv, cwd, &env, vfs.snapshot())
}

fn cd(ctx: CmdContext) -> Ended {
    ended(builtins::cd(&ctx))
}

fn pwd(ctx: CmdContext) -> Ended {
    ended(builtins::pwd(&ctx))
}

fn export(ctx: CmdContext) -> Ended {
    ended(builtins::export(&ctx))
}

fn unset(ctx: CmdContext) -> Ended {
    ended(builtins::unset(&ctx))
}

fn exit(ctx: CmdContext) -> Ended {
    ended(builtins::exit(&ctx))
}

fn cmd_true(ctx: CmdContext) -> Ended {
    ended(builtins::cmd_true(&ctx))
}

fn cmd_false(ctx: CmdContext) -> Ended {
    ended(builtins::cmd_false(&ctx))
}

fn colon(ctx: CmdContext) -> Ended {
    ended(builtins::colon(&ctx))
}

fn env(ctx: CmdContext) -> Ended {
    ended(builtins::env(&ctx))
}

fn set(ctx: CmdContext) -> Ended {
    ended(builtins::set(&ctx))
}

#[test]
fn cd_to_home() {
    let mut env = Environment::new();
    env.set("HOME", "/workspace/home/user");
    let ctx = make_ctx(vec!["cd"], "/workspace", env);

    let result = cd(ctx);
    assert_eq!(result.code, 0);
    assert_eq!(result.effects.cwd, Some("/workspace/home/user".to_string()));
}

#[test]
fn cd_to_dir() {
    let ctx = make_ctx(
        vec!["cd", "/workspace/subdir"],
        "/workspace",
        Environment::new(),
    );

    let result = cd(ctx);
    assert_eq!(result.code, 0);
    assert_eq!(result.effects.cwd, Some("/workspace/subdir".to_string()));
}

#[test]
fn cd_not_exists() {
    let ctx = make_ctx(vec!["cd", "/nonexistent"], "/workspace", Environment::new());

    let result = cd(ctx);
    assert_eq!(result.code, 1);
    assert_eq!(result.effects.cwd, None);
}

#[test]
fn pwd_prints_cwd() {
    let ctx = make_ctx(vec!["pwd"], "/workspace", Environment::new());

    let result = pwd(ctx);
    assert_eq!(result.code, 0);
}

#[test]
fn export_sets_env() {
    let ctx = make_ctx(
        vec!["export", "FOO=bar", "BAZ=qux"],
        "/workspace",
        Environment::new(),
    );

    let result = export(ctx);
    assert_eq!(result.code, 0);
    assert_eq!(result.effects.env_set.len(), 2);
    assert_eq!(
        result.effects.env_set[0],
        ("FOO".to_string(), "bar".to_string())
    );
    assert_eq!(
        result.effects.env_set[1],
        ("BAZ".to_string(), "qux".to_string())
    );
}

#[test]
fn unset_removes_env() {
    let ctx = make_ctx(
        vec!["unset", "FOO", "BAR"],
        "/workspace",
        Environment::new(),
    );

    let result = unset(ctx);
    assert_eq!(result.code, 0);
    assert_eq!(result.effects.env_unset.len(), 2);
    assert!(result.effects.env_unset.contains(&"FOO".to_string()));
    assert!(result.effects.env_unset.contains(&"BAR".to_string()));
}

#[test]
fn exit_default() {
    let ctx = make_ctx(vec!["exit"], "/workspace", Environment::new());

    let result = exit(ctx);
    assert_eq!(result.code, 0);
}

#[test]
fn exit_with_code() {
    let ctx = make_ctx(vec!["exit", "42"], "/workspace", Environment::new());

    let result = exit(ctx);
    assert_eq!(result.code, 42);
}

// cd - additional edge cases

#[test]
fn cd_no_home_defaults_to_root() {
    // When HOME is not set, cd should default to "/"
    let ctx = make_ctx(vec!["cd"], "/workspace", Environment::new());

    let result = cd(ctx);
    assert_eq!(result.code, 0);
    assert_eq!(result.effects.cwd, Some("/".to_string()));
}

#[test]
fn cd_relative_path() {
    let ctx = make_ctx(vec!["cd", "subdir"], "/workspace", Environment::new());

    let result = cd(ctx);
    assert_eq!(result.code, 0);
    assert_eq!(result.effects.cwd, Some("/workspace/subdir".to_string()));
}

// export - additional edge cases

#[test]
fn export_no_args() {
    let ctx = make_ctx(vec!["export"], "/workspace", Environment::new());

    let result = export(ctx);
    assert_eq!(result.code, 0);
    assert!(result.effects.env_set.is_empty());
}

#[test]
fn export_var_without_value() {
    // "export VAR" without = just marks for export (no-op here)
    let ctx = make_ctx(vec!["export", "VAR_ONLY"], "/workspace", Environment::new());

    let result = export(ctx);
    assert_eq!(result.code, 0);
    assert!(result.effects.env_set.is_empty());
}

#[test]
fn export_empty_value() {
    let ctx = make_ctx(vec!["export", "EMPTY="], "/workspace", Environment::new());

    let result = export(ctx);
    assert_eq!(result.code, 0);
    assert_eq!(result.effects.env_set.len(), 1);
    assert_eq!(
        result.effects.env_set[0],
        ("EMPTY".to_string(), String::new())
    );
}

#[test]
fn export_value_with_equals() {
    // Value containing = should work
    let ctx = make_ctx(
        vec!["export", "KEY=value=with=equals"],
        "/workspace",
        Environment::new(),
    );

    let result = export(ctx);
    assert_eq!(result.code, 0);
    assert_eq!(result.effects.env_set.len(), 1);
    assert_eq!(
        result.effects.env_set[0],
        ("KEY".to_string(), "value=with=equals".to_string())
    );
}

// unset - additional edge cases

#[test]
fn unset_no_args() {
    let ctx = make_ctx(vec!["unset"], "/workspace", Environment::new());

    let result = unset(ctx);
    assert_eq!(result.code, 0);
    assert!(result.effects.env_unset.is_empty());
}

#[test]
fn unset_single_var() {
    let ctx = make_ctx(vec!["unset", "SINGLE"], "/workspace", Environment::new());

    let result = unset(ctx);
    assert_eq!(result.code, 0);
    assert_eq!(result.effects.env_unset.len(), 1);
    assert_eq!(result.effects.env_unset[0], "SINGLE".to_string());
}

// exit - additional edge cases

#[test]
fn exit_invalid_code() {
    // Invalid code should default to 0
    let ctx = make_ctx(vec!["exit", "notanumber"], "/workspace", Environment::new());

    let result = exit(ctx);
    assert_eq!(result.code, 0);
}

#[test]
fn exit_negative_code() {
    let ctx = make_ctx(vec!["exit", "-1"], "/workspace", Environment::new());

    let result = exit(ctx);
    assert_eq!(result.code, -1);
}

#[test]
fn exit_large_code() {
    let ctx = make_ctx(vec!["exit", "255"], "/workspace", Environment::new());

    let result = exit(ctx);
    assert_eq!(result.code, 255);
}

// cmd_true - tests

#[test]
fn true_returns_success() {
    let ctx = make_ctx(vec!["true"], "/workspace", Environment::new());

    let result = cmd_true(ctx);
    assert_eq!(result.code, 0);
    assert!(result.effects.cwd.is_none());
    assert!(result.effects.env_set.is_empty());
    assert!(result.effects.env_unset.is_empty());
}

#[test]
fn true_ignores_args() {
    // `true` should ignore any arguments
    let ctx = make_ctx(
        vec!["true", "arg1", "arg2"],
        "/workspace",
        Environment::new(),
    );

    let result = cmd_true(ctx);
    assert_eq!(result.code, 0);
}

// cmd_false - tests

#[test]
fn false_returns_failure() {
    let ctx = make_ctx(vec!["false"], "/workspace", Environment::new());

    let result = cmd_false(ctx);
    assert_eq!(result.code, 1);
    assert!(result.effects.cwd.is_none());
    assert!(result.effects.env_set.is_empty());
    assert!(result.effects.env_unset.is_empty());
}

#[test]
fn false_ignores_args() {
    // `false` should ignore any arguments
    let ctx = make_ctx(
        vec!["false", "arg1", "arg2"],
        "/workspace",
        Environment::new(),
    );

    let result = cmd_false(ctx);
    assert_eq!(result.code, 1);
}

// colon - tests

#[test]
fn colon_returns_success() {
    let ctx = make_ctx(vec![":"], "/workspace", Environment::new());

    let result = colon(ctx);
    assert_eq!(result.code, 0);
    assert!(result.effects.cwd.is_none());
    assert!(result.effects.env_set.is_empty());
    assert!(result.effects.env_unset.is_empty());
}

#[test]
fn colon_ignores_args() {
    // `:` should ignore any arguments
    let ctx = make_ctx(vec![":", "arg1", "arg2"], "/workspace", Environment::new());

    let result = colon(ctx);
    assert_eq!(result.code, 0);
}

// env - tests

#[test]
fn env_empty_environment() {
    let ctx = make_ctx(vec!["env"], "/workspace", Environment::new());

    let result = env(ctx);
    assert_eq!(result.code, 0);
}

#[test]
fn env_with_variables() {
    let mut environment = Environment::new();
    environment.set("FOO", "bar");
    environment.set("BAZ", "qux");

    let ctx = make_ctx(vec!["env"], "/workspace", environment);

    let result = env(ctx);
    assert_eq!(result.code, 0);
}

// set - tests

#[test]
fn set_no_args_prints_env() {
    let mut environment = Environment::new();
    environment.set("VAR", "value");

    let ctx = make_ctx(vec!["set"], "/workspace", environment);

    let result = set(ctx);
    assert_eq!(result.code, 0);
    assert!(result.effects.pipefail.is_none());
}

#[test]
fn set_enable_pipefail() {
    let ctx = make_ctx(
        vec!["set", "-o", "pipefail"],
        "/workspace",
        Environment::new(),
    );

    let result = set(ctx);
    assert_eq!(result.code, 0);
    assert_eq!(result.effects.pipefail, Some(true));
}

#[test]
fn set_disable_pipefail() {
    let ctx = make_ctx(
        vec!["set", "+o", "pipefail"],
        "/workspace",
        Environment::new(),
    );

    let result = set(ctx);
    assert_eq!(result.code, 0);
    assert_eq!(result.effects.pipefail, Some(false));
}

#[test]
fn set_o_missing_option_name() {
    let ctx = make_ctx(vec!["set", "-o"], "/workspace", Environment::new());

    let result = set(ctx);
    assert_eq!(result.code, 2);
}

#[test]
fn set_plus_o_missing_option_name() {
    let ctx = make_ctx(vec!["set", "+o"], "/workspace", Environment::new());

    let result = set(ctx);
    assert_eq!(result.code, 2);
}

#[test]
fn set_unknown_option() {
    let ctx = make_ctx(
        vec!["set", "-o", "unknownoption"],
        "/workspace",
        Environment::new(),
    );

    let result = set(ctx);
    assert_eq!(result.code, 1);
}

#[test]
fn set_unknown_option_plus_o() {
    let ctx = make_ctx(
        vec!["set", "+o", "unknownoption"],
        "/workspace",
        Environment::new(),
    );

    let result = set(ctx);
    assert_eq!(result.code, 1);
}

#[test]
fn set_unknown_argument() {
    let ctx = make_ctx(vec!["set", "--unknown"], "/workspace", Environment::new());

    let result = set(ctx);
    assert_eq!(result.code, 1);
}

#[test]
fn set_multiple_options() {
    // Enable then disable pipefail (last one wins)
    let ctx = make_ctx(
        vec!["set", "-o", "pipefail", "+o", "pipefail"],
        "/workspace",
        Environment::new(),
    );

    let result = set(ctx);
    assert_eq!(result.code, 0);
    // Last option processed was +o pipefail, so pipefail should be Some(false)
    assert_eq!(result.effects.pipefail, Some(false));
}

#[test]
fn cd_to_file_fails() {
    let mut vfs = Vfs::new();
    vfs.write_file("/workspace/file.txt", b"content", Permission::ReadWrite).unwrap();
    let argv = vec!["cd".to_string(), "/workspace/file.txt".to_string()];
    let ctx = context(&argv, "/workspace", &Environment::new(), vfs.snapshot());

    let result = cd(ctx);
    assert_eq!(result.code, 1);
    assert_eq!(result.effects.cwd, None);
}
