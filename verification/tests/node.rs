//! node.
use amla_sandbox_shell::commands::node::{
    called, changed, dir_read, file_read, flush_console, io_error_to_errno, memory_limit,
    new_content, not_opened, process_op, result_line, script_code, shelled, slept, stated, tested,
    vfs_error_to_errno, wrapped_code, Action, ConsoleOutput, Event, Executed, Node, OpType,
    PendingOp, Script, Session, ShellOutcome, Step, Turn, HELP_TEXT,
};
use amla_sandbox_shell::commands::{node, Channel, Said, Start};
use amla_sandbox_shell::context::CmdContext;
use amla_sandbox_shell::env::Environment;
use amla_sandbox_shell::error::{IoError, VfsError};
use amla_sandbox_shell::fs::{Snapshot, Stat};
use amla_sandbox_shell::io_handle::IoHandle;
use serde_json::Value;

fn json(text: &str) -> Value {
    serde_json::from_str(text).unwrap()
}

fn start(line: &[&str]) -> Node {
    match node::run(&line.iter().map(|s| s.to_string()).collect()) {
        Start::Go(n) => n,
        Start::Done(said) => panic!("{}{}", said.out, said.err),
    }
}

fn done(line: &[&str]) -> Said {
    match node::run(&line.iter().map(|s| s.to_string()).collect()) {
        Start::Done(said) => said,
        Start::Go(_) => panic!("started"),
    }
}

fn context() -> CmdContext {
    CmdContext::new(
        vec!["node".to_string()],
        IoHandle::null(),
        IoHandle::buffer(),
        IoHandle::buffer(),
        "/w".to_string(),
        Environment::new(),
        Snapshot::new(),
    )
}

#[test]
fn node_reads_its_arguments() {
    let n = start(&["node", "-e", "1", "-p", "2"]);
    assert!(matches!(n.script, Script::Code(c) if c == "1"));
    assert!(n.print);
    let n = start(&["node", "--print", "2", "--max-old-space-size=128"]);
    assert!(matches!(n.script, Script::Code(c) if c == "2"));
    assert_eq!(n.memory_limit_mb, Some(128));
    let n = start(&["node", "s.js", "-e", "x"]);
    assert!(matches!(n.script, Script::File(f) if f == "s.js"));
    assert_eq!(n.script_args, vec!["-e", "x"]);
    assert!(matches!(start(&["node", "-"]).script, Script::Stdin));
}

#[test]
fn node_ends_at_once() {
    assert_eq!(done(&["node"]).out, format!("{HELP_TEXT}\n"));
    assert_eq!(done(&["node", "-v"]).out, "node v0.1.0 (amla-shell QuickJS backend)\n");
    assert_eq!(done(&["node", "-e"]).err, "node: -e requires an argument\n");
    assert_eq!(done(&["node", "--print"]).err, "node: -p requires an argument\n");
    assert_eq!(done(&["node", "--x"]).err, "node: unknown option: --x\n");
    let said = done(&["node", "--max-old-space-size=a"]);
    assert_eq!((said.err.as_str(), said.code), ("node: invalid memory limit: a\n", 1));
}

#[test]
fn code_is_wrapped_unless_it_is_printed() {
    assert_eq!(wrapped_code("1+1", true), "1+1");
    assert_eq!(
        wrapped_code("f()", false),
        "(async () => {\nf()\n})().catch(e => {const msg = (e.name ? e.name + ': ' : '') + \
         (e.message || String(e));console.error(e.stack ? msg + '\\n' + e.stack : msg);});"
    );
    assert_eq!(script_code(b"a\xffb"), "a\u{fffd}b");
    assert_eq!(memory_limit(64), 67108864);
    let said = not_opened("s.js", &IoError::NotFound("/w/s.js".into()));
    assert_eq!(said.err, "node: cannot open 's.js': no such file or directory: /w/s.js\n");
}

#[test]
fn results_are_printed() {
    assert_eq!(result_line(Value::Null), "undefined\n");
    assert_eq!(result_line(json("\"a\\nb\"")), "a\nb\n");
    assert_eq!(result_line(json("{\"a\": [1, true]}")), "{\"a\":[1,true]}\n");
}

#[test]
fn console_lines_are_parted() {
    let lines = vec![line("log", "a"), line("error", "b"), line("warn", "c"), line("info", "d")];
    let texts = [
        (Channel::Stdout, "a\n".to_string()),
        (Channel::Stderr, "b\n".to_string()),
        (Channel::Stderr, "c\n".to_string()),
        (Channel::Stdout, "d\n".to_string()),
    ];
    assert_eq!(flush_console(&lines), texts);
}

#[test]
fn failures_of_the_engine_are_told() {
    assert_eq!(Step::Create.failed("m"), "node: failed to create runtime: m\n");
    assert_eq!(Step::Prelude.failed("m"), "node: failed to load prelude: m\n");
    assert_eq!(Step::Execute.failed("m"), "node: m\n");
    assert_eq!(Step::Resolve.failed("m"), "node: failed to resolve promise: m\n");
    assert_eq!(Step::Reject.failed("m"), "node: failed to reject promise: m\n");
}

#[test]
fn errors_have_a_code() {
    let p = || "/p".to_string();
    let vfs = [
        (VfsError::NotFound(p()), "ENOENT"),
        (VfsError::PermissionDenied(p()), "EACCES"),
        (VfsError::NotADirectory(p()), "ENOTDIR"),
        (VfsError::NotAFile(p()), "EISDIR"),
        (VfsError::AlreadyExists(p()), "EEXIST"),
        (VfsError::InvalidPath(p()), "EINVAL"),
    ];
    for (e, code) in vfs {
        assert_eq!(vfs_error_to_errno(&e), code);
    }
    let io = [
        (IoError::NotFound(p()), "ENOENT"),
        (IoError::Permission(p()), "EACCES"),
        (IoError::NotDir(p()), "ENOTDIR"),
        (IoError::IsDir(p()), "EISDIR"),
        (IoError::Exists(p()), "EEXIST"),
        (IoError::InvalidSeek, "EIO"),
        (IoError::Vfs(VfsError::NotFound(p()), "Path Not Found: /p".into()), "ENOENT"),
        (IoError::Vfs(VfsError::NotAFile(p()), "not a file".into()), "EISDIR"),
        (IoError::Vfs(VfsError::InvalidPath(p()), "the path exists".into()), "EINVAL"),
        (IoError::Io("Key Not Found".into()), "ENOENT"),
        (IoError::Io("no permission".into()), "EACCES"),
        (IoError::Io("not a directory".into()), "ENOTDIR"),
        (IoError::Io("not a file".into()), "EISDIR"),
        (IoError::Io("it exists".into()), "EEXIST"),
        (IoError::Io("disk on fire".into()), "EIO"),
    ];
    for (e, code) in io {
        assert_eq!(io_error_to_errno(&e), code, "{e:?}");
    }
}

#[test]
fn operations_are_decided() {
    let ctx = context();
    let p = |s: &str| s.to_string();
    assert!(matches!(process_op(&ctx, &OpType::Sleep { delay_ms: 5 }), Action::Sleep(5)));
    let op = OpType::FsRead { path: p("../a"), encoding: None };
    assert!(matches!(process_op(&ctx, &op), Action::Read(q) if q == "/a"));
    let op = OpType::FsWrite { path: p("d/f"), data: p("x"), create_dirs: true, append: false };
    match process_op(&ctx, &op) {
        Action::Write { path, make, data, append } => {
            assert_eq!((path.as_str(), data.as_str(), append), ("/w/d/f", "x", false));
            assert_eq!(make.as_deref(), Some("/w/d"));
        }
        _ => panic!("no write"),
    }
    let op = OpType::FsWrite { path: p("/f"), data: p("x"), create_dirs: true, append: true };
    assert!(matches!(process_op(&ctx, &op), Action::Write { make: None, append: true, .. }));
    let op = OpType::FsMkdir { path: p("m"), recursive: true };
    assert!(matches!(process_op(&ctx, &op), Action::Mkdir(q, true) if q == "/w/m"));
    let op = OpType::ToolCall { tool: p("t"), params: json("{\"b\":1,\"a\":2}") };
    match process_op(&ctx, &op) {
        Action::Call(tool, bytes) => {
            assert_eq!((tool.as_str(), bytes), ("t", b"{\"a\":2,\"b\":1}".to_vec()));
        }
        _ => panic!("no call"),
    }
    let refused = |op: OpType| match process_op(&ctx, &op) {
        Action::Refuse(text) => text,
        _ => panic!("not refused"),
    };
    assert_eq!(
        refused(OpType::Fetch { url: p("u") }),
        "fetch 'u' not supported in standalone mode"
    );
    assert_eq!(refused(OpType::Spawn), "spawn not supported in standalone mode");
    assert_eq!(
        refused(OpType::LlmCall { model: p("m") }),
        "LLM call 'm' not supported in standalone mode"
    );
}

#[test]
fn file_contents_come_in_the_encoding_asked_for() {
    let bytes = || Ok(b"Hi\xff".to_vec());
    assert_eq!(file_read(bytes(), None), Ok(json("\"Hi\u{fffd}\"")));
    assert_eq!(file_read(bytes(), Some("base64")), Ok(json("\"SGn/\"")));
    assert_eq!(file_read(bytes(), Some("binary")), Ok(json("[72,105,255]")));
    assert_eq!(file_read(bytes(), Some("buffer")), Ok(json("[72,105,255]")));
    assert_eq!(file_read(Ok("\u{e9}".into()), Some("utf-8")), Ok(json("\"\u{e9}\"")));
    assert_eq!(
        file_read(Err(IoError::IsDir("/d".into())), None),
        Err("EISDIR: is a directory: /d".to_string())
    );
}

#[test]
fn base64_text_is_padded() {
    let encoded = |b: &[u8]| file_read(Ok(b.to_vec()), Some("base64")).unwrap();
    assert_eq!(encoded(b""), json("\"\""));
    assert_eq!(encoded(b"f"), json("\"Zg==\""));
    assert_eq!(encoded(b"fo"), json("\"Zm8=\""));
    assert_eq!(encoded(b"foobar"), json("\"Zm9vYmFy\""));
    assert_eq!(encoded(&[251, 239, 190]), json("\"++++\""));
}

#[test]
fn replies_are_made() {
    assert_eq!(slept(Ok(())), Ok(Value::Null));
    assert_eq!(slept(Err("e".into())), Err("sleep failed: e".to_string()));
    assert_eq!(changed(Ok(())), Ok(Value::Null));
    assert_eq!(
        changed(Err(IoError::Permission("/p".into()))),
        Err("EACCES: permission denied: /p".to_string())
    );
    assert_eq!(dir_read(Ok(vec!["a".into(), "b".into()])), Ok(json("[\"a\",\"b\"]")));
    assert_eq!(
        dir_read(Err((VfsError::NotFound("/d".into()), "gone".into()))),
        Err("ENOENT: gone".to_string())
    );
    assert_eq!(
        stated(Ok(Stat { size: 7, is_dir: false, is_file: true })),
        Ok(json(
            "{\"size\":7,\"isDirectory\":false,\"isFile\":true,\"isSymbolicLink\":false,\
             \"modifiedAt\":0}"
        ))
    );
    assert_eq!(tested(true), Ok(Value::Bool(true)));
    assert_eq!(called("t", Ok(b" [1] ".to_vec())), Ok(json("[1]")));
    assert_eq!(called("t", Err("e".into())), Err("tool call 't' failed: e".to_string()));
    assert!(called("t", Ok(b"?".to_vec())).unwrap_err().starts_with("tool result parse error: "));
    let outcome = ShellOutcome { exit_code: -1, stdout: b"o\xff".to_vec(), stderr: vec![] };
    assert_eq!(
        shelled(Ok(outcome)),
        Ok(json("{\"stdout\":\"o\u{fffd}\",\"stderr\":\"\",\"exitCode\":-1}"))
    );
    assert_eq!(shelled(Err("e".into())), Err("e".to_string()));
    assert_eq!(new_content(Some(b"ab".to_vec()), "c", true), b"abc");
    assert_eq!(new_content(None, "c", true), b"c");
    assert_eq!(new_content(Some(b"ab".to_vec()), "c", false), b"c");
    let bytes = new_content(Some("h\u{e9}".as_bytes().to_vec()), "\u{20ac}!", true);
    assert_eq!(file_read(Ok(bytes), None), Ok(json("\"h\u{e9}\u{20ac}!\"")));
}

// The event loop

fn line(level: &str, message: &str) -> ConsoleOutput {
    ConsoleOutput { level: level.to_string(), message: message.to_string() }
}

fn waits(id: &str, delay_ms: u64) -> PendingOp {
    PendingOp { id: id.to_string(), op_type: OpType::Sleep { delay_ms } }
}

fn out(text: &str) -> (Channel, String) {
    (Channel::Stdout, text.to_string())
}

fn err(text: &str) -> (Channel, String) {
    (Channel::Stderr, text.to_string())
}

fn executed(value: Value, console: Vec<ConsoleOutput>, pending_ops: Vec<PendingOp>) -> Event {
    Event::Executed(Ok(Executed { value, console, pending_ops }))
}

#[test]
fn a_session_runs_the_prelude_first() {
    let (mut s, turn) = Session::start(&start(&["node", "-p", "1", "--max-old-space-size=2"]), "1");
    assert!(matches!(turn, Turn::Create(Some(2097152))));
    assert!(matches!(s.step(Event::Created(Ok(()))).turn, Turn::ReadPrelude));
    let m = s.step(Event::PreludeRead(Some(b"p\xff".to_vec())));
    assert!(matches!(m.turn, Turn::RunPrelude(c) if c == "p\u{fffd}"));
    let m = s.step(Event::PreludeRun(Err("bad".to_string())));
    assert_eq!(m.texts, [err("node: failed to load prelude: bad\n")]);
    assert!(matches!(m.turn, Turn::Execute(c) if c == "1"));
    let m = s.step(executed(json("1"), vec![line("log", "a"), line("warn", "b")], vec![]));
    assert_eq!(m.texts, [out("a\n"), err("b\n"), out("1\n")]);
    assert!(matches!(m.turn, Turn::End(0)));
}

#[test]
fn a_session_ends_where_the_engine_fails() {
    let (mut s, turn) = Session::start(&start(&["node", "-e", "x"]), "x");
    assert!(matches!(turn, Turn::Create(None)));
    let m = s.step(Event::Created(Err("no".to_string())));
    assert_eq!(m.texts, [err("node: failed to create runtime: no\n")]);
    assert!(matches!(m.turn, Turn::End(1)));
    let m = s.step(Event::PreludeRead(None));
    assert!(matches!(m.turn, Turn::Execute(c) if c == wrapped_code("x", false)));
    let m = s.step(Event::Executed(Err("no".to_string())));
    assert_eq!(m.texts, [err("node: no\n")]);
    assert!(matches!(m.turn, Turn::End(1)));
}

#[test]
fn a_session_performs_operations_one_by_one() {
    let (mut s, _) = Session::start(&start(&["node", "-e", "x"]), "x");
    let m = s.step(executed(Value::Null, vec![], vec![waits("a", 1), waits("b", 2)]));
    assert_eq!(m.texts, []);
    assert!(matches!(m.turn, Turn::Perform(OpType::Sleep { delay_ms: 1 })));
    let m = s.step(Event::Performed(Ok(Value::Null)));
    assert!(matches!(m.turn, Turn::Resolve(id, Value::Null) if id == "a"));
    let m = s.step(Event::Resolved(Err("e".to_string())));
    assert_eq!(m.texts, [err("node: failed to resolve promise: e\n")]);
    assert!(matches!(m.turn, Turn::TakeConsole));
    let m = s.step(Event::Console(vec![line("error", "x"), line("log", "y")]));
    assert_eq!(m.texts, [err("x\n"), out("y\n")]);
    assert!(matches!(m.turn, Turn::Perform(OpType::Sleep { delay_ms: 2 })));
    let m = s.step(Event::Performed(Err("gone".to_string())));
    assert!(matches!(m.turn, Turn::Reject(id, text) if id == "b" && text == "gone"));
    assert!(matches!(s.step(Event::Rejected(Ok(()))).turn, Turn::TakeConsole));
    assert!(matches!(s.step(Event::Console(vec![])).turn, Turn::TakeOps));
    let m = s.step(Event::Ops(vec![waits("c", 3)]));
    assert!(matches!(m.turn, Turn::Perform(OpType::Sleep { delay_ms: 3 })));
    s.step(Event::Performed(Ok(Value::Null)));
    s.step(Event::Resolved(Ok(())));
    assert!(matches!(s.step(Event::Console(vec![])).turn, Turn::TakeOps));
    // One failed operation fails the run.
    assert!(matches!(s.step(Event::Ops(vec![])).turn, Turn::End(1)));
}
