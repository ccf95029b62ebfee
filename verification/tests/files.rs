//! Commands and calls that look at files.
use amla_sandbox_shell::commands::rm::RmStep;
use amla_sandbox_shell::commands::{ls, mkdir, rm, Said, Start};
use amla_sandbox_shell::context::{CmdContext, Source, Whole};
use amla_sandbox_shell::env::Environment;
use amla_sandbox_shell::error::{IoError, ShellError, VfsError};
use amla_sandbox_shell::fs::{DirEntry, Node, Snapshot};
use amla_sandbox_shell::io_handle::IoHandle;

fn entry(name: &str, is_dir: bool) -> DirEntry {
    DirEntry { name: name.to_string(), is_dir }
}

/// Some files, a directory that cannot be listed, and a mounted file.
fn files() -> Snapshot {
    let mut s = Snapshot::new();
    let closed = Node::Closed(VfsError::PermissionDenied("/w/shut".into()), "no entry".into());
    s.nodes.push(("/".into(), Node::Dir(vec![entry("w", true)])));
    s.nodes.push((
        "/w".into(),
        Node::Dir(vec![
            entry("b.txt", false),
            entry(".hidden", false),
            entry("a", true),
            entry("shut", true),
        ]),
    ));
    s.nodes.push(("/w/b.txt".into(), Node::File(Some(2048))));
    s.nodes.push(("/w/.hidden".into(), Node::File(Some(3))));
    s.nodes.push(("/w/a".into(), Node::Dir(vec![])));
    s.nodes.push(("/w/shut".into(), closed));
    s.mounts.push(("/mnt".into(), "/host/f".into()));
    s
}

fn context(argv: &[&str]) -> CmdContext {
    CmdContext::new(
        argv.iter().map(|s| s.to_string()).collect(),
        IoHandle::null(),
        IoHandle::buffer(),
        IoHandle::buffer(),
        "/w".to_string(),
        Environment::new(),
        files(),
    )
}

fn run_ls(argv: &[&str]) -> (String, String, i32) {
    let said = ls::run(&context(argv));
    (said.out, said.err, said.code)
}

// ls

#[test]
fn ls_lists_names_in_order() {
    assert_eq!(run_ls(&["ls"]).0, "a  b.txt  shut\n");
    assert_eq!(run_ls(&["ls", "-a", "."]).0, ".hidden  a  b.txt  shut\n");
    assert_eq!(run_ls(&["ls", "-1", "/w"]).0, "a\nb.txt\nshut\n");
    assert_eq!(run_ls(&["ls", "a"]).0, "");
    assert_eq!(run_ls(&["ls", "../w/b.txt"]).0, "b.txt\n");
}

#[test]
fn ls_describes_entries() {
    assert_eq!(
        run_ls(&["ls", "-l"]).0,
        "drwxr-xr-x 1 user user        0 Jan  1 00:00 a\n\
         -rw-r--r-- 1 user user     2048 Jan  1 00:00 b.txt\n\
         drwxr-xr-x 1 user user        0 Jan  1 00:00 shut\n"
    );
    assert_eq!(
        run_ls(&["ls", "-lh", "b.txt"]).0,
        "-rw-r--r-- 1 user user  2.0K Jan  1 00:00 b.txt\n"
    );
}

#[test]
fn ls_names_directories_where_there_are_several() {
    assert_eq!(run_ls(&["ls", "a", "/"]).0, "a:\n\n/:\nw\n");
}

#[test]
fn ls_stops_at_the_first_failure() {
    let (out, err, code) = run_ls(&["ls", "b.txt", "gone", "a"]);
    assert_eq!(out, "b.txt:\nb.txt\n\ngone:\n");
    assert_eq!(err, "ls: cannot access 'gone': No such file or directory\n");
    assert_eq!(code, 2);
    let (_, err, code) = run_ls(&["ls", "shut"]);
    assert_eq!((err.as_str(), code), ("ls: cannot open directory 'shut': no entry\n", 1));
}

// rm

fn start_rm(argv: &[&str]) -> rm::Rm {
    match rm::run(&argv.iter().map(|s| s.to_string()).collect()) {
        Start::Go(m) => m,
        Start::Done(said) => panic!("{}", said.err),
    }
}

fn parts(said: Said) -> (String, String) {
    (said.out, said.err)
}

#[test]
fn rm_decides_what_is_removed() {
    let ctx = context(&["rm"]);
    let m = start_rm(&["rm", "x"]);
    assert!(matches!(m.step(&ctx, "b.txt"), RmStep::Remove));
    assert!(matches!(m.step(&ctx, "a"), RmStep::Directory));
    assert!(matches!(m.step(&ctx, "gone"), RmStep::Missing));
    let m = start_rm(&["rm", "-rf", "x"]);
    assert!(matches!(m.step(&ctx, "/w/a"), RmStep::RemoveTree));
    assert!(matches!(m.step(&ctx, "gone"), RmStep::Nothing));
}

#[test]
fn rm_says_what_it_did() {
    let mut m = start_rm(&["rm", "-v", "x"]);
    assert_eq!(parts(m.removed("x", Ok(()))), ("removed 'x'\n".into(), String::new()));
    assert_eq!(m.code, 0);
    let e = Err(IoError::Vfs(VfsError::NotFound("/w/x".into()), "lost".into()));
    assert_eq!(parts(m.removed("x", e)).1, "rm: cannot remove 'x': lost\n");
    assert_eq!(m.code, 1);
    let said = m.kept("d", RmStep::Directory);
    assert_eq!(said.err, "rm: cannot remove 'd': Is a directory\n");
    let said = m.kept("d", RmStep::Missing);
    assert_eq!(said.err, "rm: cannot remove 'd': No such file or directory\n");
    assert_eq!(start_rm(&["rm", "-f", "x"]).removed("x", Ok(())).out, "");
}

#[test]
fn rm_wants_a_file() {
    let run = |argv: &[&str]| match rm::run(&argv.iter().map(|s| s.to_string()).collect()) {
        Start::Done(said) => (said.out, said.err, said.code),
        Start::Go(_) => panic!("started"),
    };
    assert_eq!(run(&["rm"]), (String::new(), "rm: missing operand\n".into(), 1));
    assert_eq!(run(&["rm", "-f"]), (String::new(), String::new(), 0));
    assert_eq!(run(&["rm", "--help"]), (rm::HELP.to_string(), String::new(), 0));
}

// mkdir

#[test]
fn mkdir_says_what_it_made() {
    let argv: Vec<String> = ["mkdir", "-pv", "d", "e"].iter().map(|s| s.to_string()).collect();
    let mut m = match mkdir::run(&argv) {
        Start::Go(m) => m,
        Start::Done(said) => panic!("{}", said.err),
    };
    assert!(m.parents);
    assert_eq!((m.dirs.len(), m.dirs.at(1)), (2, "e"));
    assert_eq!(m.made("d", Ok(())).out, "mkdir: created directory 'd'\n");
    assert_eq!(m.code, 0);
    let said = m.made("e", Err(IoError::Exists("/w/e".into())));
    assert_eq!(said.err, "mkdir: cannot create directory 'e': file exists: /w/e\n");
    assert_eq!(m.code, 1);
    match mkdir::run(&vec!["mkdir".to_string(), "-p".to_string()]) {
        Start::Done(said) => assert_eq!(said.err, "mkdir: missing operand\n"),
        Start::Go(_) => panic!("started"),
    }
}

// The context

#[test]
fn files_are_opened_where_they_are() {
    let ctx = context(&["cmd"]);
    assert!(matches!(ctx.open_or_stdin("-"), Ok(Source::Stdin)));
    assert!(matches!(ctx.open_or_stdin("b.txt"), Ok(Source::File(_))));
    assert!(matches!(ctx.open_or_stdin("/mnt"), Ok(Source::Host(p)) if p == "/host/f"));
    assert!(matches!(ctx.open_read("a"), Err(IoError::IsDir(p)) if p == "/w/a"));
    assert!(matches!(ctx.open_read("gone"), Err(IoError::NotFound(p)) if p == "/w/gone"));
    assert!(matches!(ctx.read_file("gone"), Whole::File(p) if p == "/w/gone"));
    assert!(matches!(ctx.read_file("/mnt"), Whole::Host(p) if p == "/host/f"));
}

#[test]
fn what_the_host_reads_is_a_buffer() {
    let ctx = context(&["cmd"]);
    let handle = ctx.host_opened(Ok(b"abc".to_vec())).unwrap();
    assert_eq!(handle.get_buffer().unwrap(), b"abc");
    assert!(matches!(ctx.host_opened(Err("no".into())), Err(IoError::Io(_))));
    assert_eq!(ctx.host_read(Ok(b"abc".to_vec())).unwrap(), b"abc");
    assert!(matches!(ctx.host_read(Err("no".into())), Err(IoError::Io(_))));
}

#[test]
fn paths_are_looked_up() {
    let ctx = context(&["cmd"]);
    let stat = ctx.stat("b.txt").unwrap();
    assert_eq!((stat.size, stat.is_dir, stat.is_file), (2048, false, true));
    let stat = ctx.stat("/w/a/.").unwrap();
    assert_eq!((stat.size, stat.is_dir, stat.is_file), (0, true, false));
    assert!(ctx.stat("gone").is_err());
    assert_eq!(ctx.list_dir("a").unwrap().len(), 0);
    assert!(ctx.list_dir("b.txt").is_err());
    assert!(ctx.path_exists("a") && ctx.is_dir("a") && !ctx.is_file("a"));
    assert!(ctx.fs.is_well_named());
}

// Errors

#[test]
fn shell_errors_have_a_text() {
    let all = [
        (ShellError::CommandNotFound("x".into()), "command not found: x"),
        (ShellError::Syntax { message: "m".into(), position: 3 }, "syntax error: m"),
        (ShellError::Io("m".into()), "I/O error: m"),
        (ShellError::Vfs("m".into()), "filesystem error: m"),
        (ShellError::Arg("m".into()), "argument error: m"),
        (ShellError::JobNotFound(7), "job not found: %7"),
        (ShellError::Redirect("m".into()), "redirect error: m"),
        (ShellError::Scheduler("m".into()), "scheduler error: m"),
        (ShellError::BrokenPipe, "broken pipe"),
    ];
    for (e, text) in all {
        assert_eq!(e.message(), text);
    }
}
