//! jq.
#![allow(dead_code)]
use std::cell::RefCell;
use std::rc::Rc;

use amla_sandbox_shell::commands::jq::{
    self, compile_filter, format_val, is_falsy, is_printable, join_inputs, process_result, read_inputs,
    unread_filter, Batch, Event, Fault, Jq, JqOptions, Session, Turn,
};
use amla_sandbox_shell::commands::{Said, Start};
use amla_sandbox_shell::context::CmdContext;
use amla_sandbox_shell::env::Environment;
use amla_sandbox_shell::error::VfsError;
use amla_sandbox_shell::fs::{DirEntry, Node, Snapshot};
use amla_sandbox_shell::io_handle::IoHandle;
use jaq_interpret::{Ctx, Filter, FilterT, RcIter, Val};

/// A tree of directories and files.
struct Vfs {
    dirs: Vec<String>,
    files: Vec<(String, Vec<u8>)>,
}

#[derive(Clone, Copy)]
enum Permission {
    ReadWrite,
}

impl Vfs {
    fn new() -> Vfs {
        Vfs { dirs: vec!["/".to_string(), "/workspace".to_string()], files: Vec::new() }
    }

    fn is_dir(&self, path: &str) -> bool {
        self.dirs.iter().any(|d| d == path)
    }

    fn has(&self, path: &str) -> bool {
        self.is_dir(path) || self.files.iter().any(|(f, _)| f == path)
    }

    fn create_dir(&mut self, path: &str, _p: Permission) -> Result<(), VfsError> {
        if self.has(path) {
            return Err(VfsError::AlreadyExists(path.to_string()));
        }
        self.dirs.push(path.to_string());
        Ok(())
    }

    fn create_dir_all(&mut self, path: &str, p: Permission) -> Result<(), VfsError> {
        let mut at = String::new();
        for part in path.split('/').filter(|s| !s.is_empty()) {
            at = format!("{at}/{part}");
            if !self.is_dir(&at) {
                self.create_dir(&at, p)?;
            }
        }
        Ok(())
    }

    fn write_file(&mut self, path: &str, data: &[u8], _p: Permission) -> Result<(), VfsError> {
        let parent = match path.rfind('/') {
            Some(0) | None => "/",
            Some(i) => &path[..i],
        };
        if !self.is_dir(parent) {
            return Err(VfsError::NotFound(parent.to_string()));
        }
        self.files.retain(|(f, _)| f != path);
        self.files.push((path.to_string(), data.to_vec()));
        Ok(())
    }

    fn read_file(&self, path: &str) -> Result<Vec<u8>, VfsError> {
        match self.files.iter().find(|(f, _)| f == path) {
            Some((_, data)) => Ok(data.clone()),
            None => Err(VfsError::NotFound(path.to_string())),
        }
    }

    fn children(&self, dir: &str) -> Vec<DirEntry> {
        let prefix = if dir == "/" { "/".to_string() } else { format!("{dir}/") };
        let mut entries: Vec<(String, bool)> = Vec::new();
        let dirs = self.dirs.iter().map(|d| (d, true));
        let files = self.files.iter().map(|(f, _)| (f, false));
        for (path, is_dir) in dirs.chain(files) {
            if let Some(name) = path.strip_prefix(&prefix) {
                if !name.is_empty() && !name.contains('/') {
                    entries.push((name.to_string(), is_dir));
                }
            }
        }
        entries.sort();
        entries.into_iter().map(|(name, is_dir)| DirEntry { name, is_dir }).collect()
    }

    fn snapshot(&self) -> Snapshot {
        let mut s = Snapshot::new();
        for d in &self.dirs {
            s.nodes.push((d.clone(), Node::Dir(self.children(d))));
        }
        for (f, data) in &self.files {
            s.nodes.push((f.clone(), Node::File(Some(data.len() as u64))));
        }
        s
    }
}

/// What a command writes to a stream.
#[derive(Clone)]
struct Out(Rc<RefCell<Vec<u8>>>);

impl Out {
    fn new() -> Out {
        Out(Rc::new(RefCell::new(Vec::new())))
    }

    fn write(&self, text: &str) {
        self.0.borrow_mut().extend_from_slice(text.as_bytes());
    }

    fn get_buffer(&self) -> Option<Vec<u8>> {
        Some(self.0.borrow().clone())
    }
}

fn context(argv: &[String], cwd: &str, env: &Environment, fs: Snapshot) -> CmdContext {
    CmdContext::new(
        argv.to_vec(),
        IoHandle::null(),
        IoHandle::buffer(),
        IoHandle::buffer(),
        cwd.to_string(),
        env.duplicate(),
        fs,
    )
}

fn json(text: &str) -> serde_json::Value {
    serde_json::from_str(text).unwrap()
}

/// A jq command, the files and its streams.
struct Cmd {
    argv: Vec<String>,
    stdin: String,
    vfs: Rc<RefCell<Vfs>>,
    out: Out,
    err: Out,
}

fn make_ctx_with_stdin(
    argv: Vec<&str>,
    vfs: Rc<RefCell<Vfs>>,
    stdin_content: &str,
) -> (Cmd, Out, Out) {
    let (out, err) = (Out::new(), Out::new());
    let cmd = Cmd {
        argv: argv.into_iter().map(String::from).collect(),
        stdin: stdin_content.to_string(),
        vfs,
        out: out.clone(),
        err: err.clone(),
    };
    (cmd, out, err)
}

fn make_ctx_with_vfs(argv: Vec<&str>, vfs: Rc<RefCell<Vfs>>) -> (Cmd, Out, Out) {
    make_ctx_with_stdin(argv, vfs, "")
}

type Results<'a> = Box<dyn Iterator<Item = Result<Val, jaq_interpret::Error>> + 'a>;

/// Runs a session to its end, or until so much is written.
fn run_session(filter: &Filter, mut s: Session, most: usize) -> Batch {
    let inputs = RcIter::new(core::iter::empty());
    let mut results: Results = Box::new(core::iter::empty());
    let mut all = Batch { out: String::new(), err: String::new(), last: None, fault: None };
    let mut event = Event::Begun;
    loop {
        let step = s.step(event);
        all.out.push_str(&step.batch.out);
        all.err.push_str(&step.batch.err);
        all.fault = step.batch.fault;
        all.last = s.last;
        match step.turn {
            Turn::Run(i) => results = filter.run((Ctx::new([], &inputs), s.values[i].clone())),
            Turn::Next => {}
            Turn::End => return all,
        }
        if all.out.len() >= most {
            return all;
        }
        event = match results.next() {
            Some(Ok(v)) => Event::Given(v),
            Some(Err(e)) => Event::Failed(e.to_string()),
            None => Event::Exhausted,
        };
    }
}

fn process_null(jq: &mut Jq) -> Batch {
    let b = run_session(&jq.filter, jq.start_null(), usize::MAX);
    jq.note(b.last);
    b
}

fn process_input(jq: &mut Jq, data: &[u8]) -> Batch {
    let b = run_session(&jq.filter, jq.start(data), usize::MAX);
    jq.note(b.last);
    b
}

fn process_results(results: &[Result<Val, String>], o: &JqOptions) -> Batch {
    let mut all = Batch { out: String::new(), err: String::new(), last: None, fault: None };
    for x in results {
        let b = process_result(x, o);
        all.out.push_str(&b.out);
        all.err.push_str(&b.err);
        all.last = b.last.or(all.last);
        all.fault = b.fault;
        if all.fault.is_some() {
            break;
        }
    }
    all
}

fn run(cmd: Cmd) -> Said {
    let fails = |code: i32| Said { out: String::new(), err: String::new(), code };
    let mut jq = match jq::run(&cmd.argv) {
        Start::Done(said) => {
            cmd.out.write(&said.out);
            cmd.err.write(&said.err);
            return said;
        }
        Start::Go(jq) => jq,
    };
    let fs = cmd.vfs.borrow().snapshot();
    let ctx = context(&cmd.argv, "/workspace", &Environment::new(), fs);
    let mut batches = Vec::new();
    let mut slurped = Vec::new();
    if jq.null_input {
        batches.push(process_null(&mut jq));
    } else if jq.files.len() == 0 {
        batches.push(process_input(&mut jq, cmd.stdin.as_bytes()));
    }
    for i in 0..jq.files.len() {
        if jq.null_input {
            break;
        }
        let name = jq.files.at(i).to_string();
        let data = match ctx.open_or_stdin(&name) {
            Ok(_) if name == "-" => cmd.stdin.clone().into_bytes(),
            Ok(_) => cmd.vfs.borrow().read_file(&ctx.resolve_path(&name)).unwrap(),
            Err(e) => {
                let said = jq.refused(&name, &e);
                cmd.err.write(&said.err);
                return said;
            }
        };
        if jq.opts.slurp {
            slurped.push(data);
        } else {
            batches.push(process_input(&mut jq, &data));
        }
    }
    if !slurped.is_empty() {
        let data = join_inputs(&slurped);
        batches.push(process_input(&mut jq, &data));
    }
    for batch in &batches {
        cmd.out.write(&batch.out);
        cmd.err.write(&batch.err);
        if batch.fault.is_some() {
            return fails(1);
        }
    }
    fails(jq.code())
}

// Unit tests for helper functions

#[test]
fn test_is_falsy() {
    assert!(is_falsy(&Val::Null));
    assert!(is_falsy(&Val::Bool(false)));
    assert!(!is_falsy(&Val::Bool(true)));
    assert!(!is_falsy(&Val::Int(0)));
    assert!(!is_falsy(&Val::from(String::new())));
}

#[test]
fn test_is_falsy_numbers() {
    // 0 is NOT falsy in jq (unlike JavaScript)
    assert!(!is_falsy(&Val::Int(0)));
    assert!(!is_falsy(&Val::Int(-1)));
    assert!(!is_falsy(&Val::Int(1)));
}

#[test]
fn test_is_falsy_empty_values() {
    // Empty string/array/object are NOT falsy in jq
    assert!(!is_falsy(&Val::from(String::new())));
    assert!(!is_falsy(&Val::from(json("[]"))));
    assert!(!is_falsy(&Val::from(json("{}"))));
}

#[test]
fn test_format_val_compact() {
    let val = Val::from(json(r#"{"a": 1, "b": 2}"#));
    let output = format_val(&val, true);
    // Compact should have no newlines
    assert!(!output.contains('\n'));
    assert!(output.contains("\"a\""));
    assert!(output.contains("\"b\""));
}

#[test]
fn test_format_val_pretty() {
    let val = Val::from(json(r#"{"a": 1}"#));
    let output = format_val(&val, false);
    // Pretty should have newlines and indentation
    assert!(output.contains('\n'));
    assert!(output.contains("  ")); // indentation
}

#[test]
fn test_format_val_null() {
    let val = Val::Null;
    assert_eq!(format_val(&val, true), "null");
    assert_eq!(format_val(&val, false), "null");
}

#[test]
fn test_format_val_string() {
    let val = Val::from("hello".to_string());
    assert_eq!(format_val(&val, true), "\"hello\"");
}

#[test]
fn test_format_val_number() {
    let val = Val::Int(42);
    assert_eq!(format_val(&val, true), "42");
}

#[test]
fn test_format_val_array() {
    let val = Val::from(json("[1, 2, 3]"));
    let output = format_val(&val, true);
    assert_eq!(output, "[1,2,3]");
}

// Compile filter tests

#[test]
fn test_compile_identity_filter() {
    let result = compile_filter(".");
    assert!(result.is_ok());
}

#[test]
fn test_compile_field_access() {
    let result = compile_filter(".foo");
    assert!(result.is_ok());
}

#[test]
fn test_compile_array_access() {
    let result = compile_filter(".[0]");
    assert!(result.is_ok());
}

#[test]
fn test_compile_pipe() {
    let result = compile_filter(".foo | .bar");
    assert!(result.is_ok());
}

#[test]
fn test_compile_map() {
    let result = compile_filter("map(. + 1)");
    assert!(result.is_ok());
}

#[test]
fn test_compile_select() {
    let result = compile_filter("select(. > 0)");
    assert!(result.is_ok());
}

#[test]
fn test_compile_invalid() {
    let result = compile_filter("[[[");
    assert!(result.is_err());
}

#[test]
fn test_compile_keys() {
    let result = compile_filter("keys");
    assert!(result.is_ok());
}

#[test]
fn test_compile_length() {
    let result = compile_filter("length");
    assert!(result.is_ok());
}

#[test]
fn test_compile_sort() {
    let result = compile_filter("sort");
    assert!(result.is_ok());
}

#[test]
fn test_compile_unique() {
    let result = compile_filter("unique");
    assert!(result.is_ok());
}

#[test]
fn test_compile_group_by() {
    let result = compile_filter("group_by(.name)");
    assert!(result.is_ok());
}

#[test]
fn test_compile_conditional() {
    let result = compile_filter("if .x > 0 then \"positive\" else \"non-positive\" end");
    assert!(result.is_ok());
}

#[test]
fn test_compile_object_construction() {
    let result = compile_filter("{name: .foo, value: .bar}");
    assert!(result.is_ok());
}

#[test]
fn test_compile_array_construction() {
    let result = compile_filter("[.a, .b, .c]");
    assert!(result.is_ok());
}

#[test]
fn test_compile_recursive_descent() {
    let result = compile_filter("..");
    assert!(result.is_ok());
}

#[test]
fn test_compile_add() {
    let result = compile_filter("add");
    assert!(result.is_ok());
}

#[test]
fn test_compile_first_last() {
    assert!(compile_filter("first").is_ok());
    assert!(compile_filter("last").is_ok());
}

#[test]
fn test_compile_type() {
    let result = compile_filter("type");
    assert!(result.is_ok());
}

// Filter execution tests

#[test]
fn test_run_identity() {
    let filter = compile_filter(".").unwrap();
    let input = Val::from(json(r#"{"a": 1}"#));
    let inputs = RcIter::new(std::iter::empty());
    let ctx = Ctx::new([], &inputs);

    let results: Vec<_> = filter.run((ctx, input)).collect();
    assert_eq!(results.len(), 1);
    assert!(results[0].is_ok());
}

#[test]
fn test_run_field_access() {
    let filter = compile_filter(".a").unwrap();
    let input = Val::from(json(r#"{"a": 42}"#));
    let inputs = RcIter::new(std::iter::empty());
    let ctx = Ctx::new([], &inputs);

    let results: Vec<_> = filter.run((ctx, input)).collect();
    assert_eq!(results.len(), 1);
    let val = results[0].as_ref().unwrap();
    assert_eq!(*val, Val::Int(42));
}

#[test]
fn test_run_array_iteration() {
    let filter = compile_filter(".[]").unwrap();
    let input = Val::from(json("[1, 2, 3]"));
    let inputs = RcIter::new(std::iter::empty());
    let ctx = Ctx::new([], &inputs);

    let results: Vec<_> = filter.run((ctx, input)).collect();
    assert_eq!(results.len(), 3);
}

#[test]
fn test_run_nested_field_access() {
    let filter = compile_filter(".a.b.c").unwrap();
    let input = Val::from(json(r#"{"a": {"b": {"c": "deep"}}}"#));
    let inputs = RcIter::new(std::iter::empty());
    let ctx = Ctx::new([], &inputs);

    let results: Vec<_> = filter.run((ctx, input)).collect();
    assert_eq!(results.len(), 1);
    let val = results[0].as_ref().unwrap();
    assert_eq!(*val, Val::from("deep".to_string()));
}

#[test]
fn test_run_map() {
    let filter = compile_filter("map(. * 2)").unwrap();
    let input = Val::from(json("[1, 2, 3]"));
    let inputs = RcIter::new(std::iter::empty());
    let ctx = Ctx::new([], &inputs);

    let results: Vec<_> = filter.run((ctx, input)).collect();
    assert_eq!(results.len(), 1);
    let arr: serde_json::Value = results[0].as_ref().unwrap().clone().into();
    assert_eq!(arr, json("[2, 4, 6]"));
}

#[test]
fn test_run_select() {
    let filter = compile_filter(".[] | select(. > 2)").unwrap();
    let input = Val::from(json("[1, 2, 3, 4]"));
    let inputs = RcIter::new(std::iter::empty());
    let ctx = Ctx::new([], &inputs);

    let results: Vec<_> = filter.run((ctx, input)).collect();
    assert_eq!(results.len(), 2); // 3 and 4
}

#[test]
fn test_run_keys() {
    let filter = compile_filter("keys").unwrap();
    let input = Val::from(json(r#"{"z": 1, "a": 2}"#));
    let inputs = RcIter::new(std::iter::empty());
    let ctx = Ctx::new([], &inputs);

    let results: Vec<_> = filter.run((ctx, input)).collect();
    assert_eq!(results.len(), 1);
    let arr: serde_json::Value = results[0].as_ref().unwrap().clone().into();
    // Keys are sorted alphabetically
    assert_eq!(arr, json(r#"["a", "z"]"#));
}

#[test]
fn test_run_length_array() {
    let filter = compile_filter("length").unwrap();
    let input = Val::from(json("[1, 2, 3, 4, 5]"));
    let inputs = RcIter::new(std::iter::empty());
    let ctx = Ctx::new([], &inputs);

    let results: Vec<_> = filter.run((ctx, input)).collect();
    assert_eq!(results.len(), 1);
    assert_eq!(*results[0].as_ref().unwrap(), Val::Int(5));
}

#[test]
fn test_run_length_string() {
    let filter = compile_filter("length").unwrap();
    let input = Val::from("hello".to_string());
    let inputs = RcIter::new(std::iter::empty());
    let ctx = Ctx::new([], &inputs);

    let results: Vec<_> = filter.run((ctx, input)).collect();
    assert_eq!(results.len(), 1);
    assert_eq!(*results[0].as_ref().unwrap(), Val::Int(5));
}

#[test]
fn test_run_sort() {
    let filter = compile_filter("sort").unwrap();
    let input = Val::from(json("[3, 1, 2]"));
    let inputs = RcIter::new(std::iter::empty());
    let ctx = Ctx::new([], &inputs);

    let results: Vec<_> = filter.run((ctx, input)).collect();
    assert_eq!(results.len(), 1);
    let arr: serde_json::Value = results[0].as_ref().unwrap().clone().into();
    assert_eq!(arr, json("[1, 2, 3]"));
}

#[test]
fn test_run_add() {
    let filter = compile_filter("add").unwrap();
    let input = Val::from(json("[1, 2, 3]"));
    let inputs = RcIter::new(std::iter::empty());
    let ctx = Ctx::new([], &inputs);

    let results: Vec<_> = filter.run((ctx, input)).collect();
    assert_eq!(results.len(), 1);
    assert_eq!(*results[0].as_ref().unwrap(), Val::Int(6));
}

#[test]
fn test_run_type() {
    let filter = compile_filter("type").unwrap();

    // Test string
    let inputs = RcIter::new(std::iter::empty());
    let ctx = Ctx::new([], &inputs);
    let results: Vec<_> = filter
        .run((ctx.clone(), Val::from("hello".to_string())))
        .collect();
    assert_eq!(
        *results[0].as_ref().unwrap(),
        Val::from("string".to_string())
    );

    // Test number
    let inputs2 = RcIter::new(std::iter::empty());
    let ctx2 = Ctx::new([], &inputs2);
    let results2: Vec<_> = filter.run((ctx2, Val::Int(42))).collect();
    assert_eq!(
        *results2[0].as_ref().unwrap(),
        Val::from("number".to_string())
    );

    // Test array
    let inputs3 = RcIter::new(std::iter::empty());
    let ctx3 = Ctx::new([], &inputs3);
    let results3: Vec<_> = filter
        .run((ctx3, Val::from(json("[]"))))
        .collect();
    assert_eq!(
        *results3[0].as_ref().unwrap(),
        Val::from("array".to_string())
    );
}

// Help tests

#[test]
fn jq_help_short() {
    let vfs = Rc::new(RefCell::new(Vfs::new()));
    let (ctx, stdout, _stderr) = make_ctx_with_vfs(vec!["jq", "-h"], vfs);

    let result = run(ctx);

    assert_eq!(result.code, 0);

    let output = String::from_utf8(stdout.get_buffer().unwrap()).unwrap();
    assert!(output.contains("jq - JSON processor"));
    assert!(output.contains("--raw-output"));
    assert!(output.contains("--slurp"));
}

#[test]
fn jq_help_long() {
    let vfs = Rc::new(RefCell::new(Vfs::new()));
    let (ctx, stdout, _stderr) =
        make_ctx_with_vfs(vec!["jq", "--help"], vfs);

    let result = run(ctx);

    assert_eq!(result.code, 0);

    let output = String::from_utf8(stdout.get_buffer().unwrap()).unwrap();
    assert!(output.contains("jq - JSON processor"));
}

// Basic stdin tests

#[test]
fn jq_identity_from_stdin() {
    let vfs = Rc::new(RefCell::new(Vfs::new()));
    let (ctx, stdout, _stderr) =
        make_ctx_with_stdin(vec!["jq", "."], vfs, r#"{"a":1}"#);

    let result = run(ctx);

    assert_eq!(result.code, 0);

    let output = String::from_utf8(stdout.get_buffer().unwrap()).unwrap();
    assert!(output.contains("\"a\""));
    assert!(output.contains('1'));
}

#[test]
fn jq_field_access_from_stdin() {
    let vfs = Rc::new(RefCell::new(Vfs::new()));
    let (ctx, stdout, _stderr) = make_ctx_with_stdin(
        vec!["jq", ".name"],
        vfs,
        r#"{"name":"foo"}"#,
    );

    let result = run(ctx);

    assert_eq!(result.code, 0);

    let output = String::from_utf8(stdout.get_buffer().unwrap()).unwrap();
    assert!(output.contains("\"foo\""));
}

#[test]
fn jq_default_identity_filter() {
    // When no filter is provided, identity (.) is used
    let vfs = Rc::new(RefCell::new(Vfs::new()));
    let (ctx, stdout, _stderr) =
        make_ctx_with_stdin(vec!["jq"], vfs, r#"{"x":1}"#);

    let result = run(ctx);

    assert_eq!(result.code, 0);

    let output = String::from_utf8(stdout.get_buffer().unwrap()).unwrap();
    assert!(output.contains("\"x\""));
    assert!(output.contains('1'));
}

// Raw output (-r) tests

#[test]
fn jq_raw_output_string() {
    let vfs = Rc::new(RefCell::new(Vfs::new()));
    let (ctx, stdout, _stderr) = make_ctx_with_stdin(
        vec!["jq", "-r", ".name"],
        vfs,
        r#"{"name":"hello"}"#,
    );

    let result = run(ctx);

    assert_eq!(result.code, 0);

    let output = String::from_utf8(stdout.get_buffer().unwrap()).unwrap();
    // Raw output should not have quotes
    assert_eq!(output.trim(), "hello");
    assert!(!output.contains('"'));
}

#[test]
fn jq_raw_output_long_option() {
    let vfs = Rc::new(RefCell::new(Vfs::new()));
    let (ctx, stdout, _stderr) = make_ctx_with_stdin(
        vec!["jq", "--raw-output", ".name"],
        vfs,
        r#"{"name":"test"}"#,
    );

    let result = run(ctx);

    assert_eq!(result.code, 0);

    let output = String::from_utf8(stdout.get_buffer().unwrap()).unwrap();
    assert_eq!(output.trim(), "test");
}

#[test]
fn jq_raw_output_number() {
    // -r with non-string values should still format normally
    let vfs = Rc::new(RefCell::new(Vfs::new()));
    let (ctx, stdout, _stderr) = make_ctx_with_stdin(
        vec!["jq", "-r", ".x"],
        vfs,
        r#"{"x":42}"#,
    );

    let result = run(ctx);

    assert_eq!(result.code, 0);

    let output = String::from_utf8(stdout.get_buffer().unwrap()).unwrap();
    assert_eq!(output.trim(), "42");
}

// Compact output (-c) tests

#[test]
fn jq_compact_output() {
    let vfs = Rc::new(RefCell::new(Vfs::new()));
    let (ctx, stdout, _stderr) = make_ctx_with_stdin(
        vec!["jq", "-c", "."],
        vfs,
        r#"{"a":1,"b":2}"#,
    );

    let result = run(ctx);

    assert_eq!(result.code, 0);

    let output = String::from_utf8(stdout.get_buffer().unwrap()).unwrap();
    // Compact output should be on one line (no extra newlines within)
    let lines: Vec<&str> = output.lines().collect();
    assert_eq!(lines.len(), 1);
    assert!(!output.contains("  ")); // No indentation
}

#[test]
fn jq_compact_output_long_option() {
    let vfs = Rc::new(RefCell::new(Vfs::new()));
    let (ctx, stdout, _stderr) = make_ctx_with_stdin(
        vec!["jq", "--compact-output", "."],
        vfs,
        r#"{"x":1}"#,
    );

    let result = run(ctx);

    assert_eq!(result.code, 0);

    let output = String::from_utf8(stdout.get_buffer().unwrap()).unwrap();
    assert_eq!(output.trim(), r#"{"x":1}"#);
}

// Null input (-n) tests

#[test]
fn jq_null_input() {
    let vfs = Rc::new(RefCell::new(Vfs::new()));
    let (ctx, stdout, _stderr) = make_ctx_with_stdin(
        vec!["jq", "-n", "42"],
        vfs,
        "ignored input",
    );

    let result = run(ctx);

    assert_eq!(result.code, 0);

    let output = String::from_utf8(stdout.get_buffer().unwrap()).unwrap();
    assert_eq!(output.trim(), "42");
}

#[test]
fn jq_null_input_object_construction() {
    let vfs = Rc::new(RefCell::new(Vfs::new()));
    let (ctx, stdout, _stderr) = make_ctx_with_stdin(
        vec!["jq", "-n", "-c", r#"{hello: "world"}"#],
        vfs,
        "",
    );

    let result = run(ctx);

    assert_eq!(result.code, 0);

    let output = String::from_utf8(stdout.get_buffer().unwrap()).unwrap();
    assert!(output.contains("hello"));
    assert!(output.contains("world"));
}

#[test]
fn jq_null_input_long_option() {
    let vfs = Rc::new(RefCell::new(Vfs::new()));
    let (ctx, stdout, _stderr) = make_ctx_with_stdin(
        vec!["jq", "--null-input", "null"],
        vfs,
        "",
    );

    let result = run(ctx);

    assert_eq!(result.code, 0);

    let output = String::from_utf8(stdout.get_buffer().unwrap()).unwrap();
    assert_eq!(output.trim(), "null");
}

// Slurp mode (-s) tests

#[test]
fn jq_slurp_multiple_values() {
    let vfs = Rc::new(RefCell::new(Vfs::new()));
    let (ctx, stdout, _stderr) = make_ctx_with_stdin(
        vec!["jq", "-s", "-c", "."],
        vfs,
        "1\n2\n3",
    );

    let result = run(ctx);

    assert_eq!(result.code, 0);

    let output = String::from_utf8(stdout.get_buffer().unwrap()).unwrap();
    assert_eq!(output.trim(), "[1,2,3]");
}

#[test]
fn jq_slurp_sum() {
    let vfs = Rc::new(RefCell::new(Vfs::new()));
    let (ctx, stdout, _stderr) = make_ctx_with_stdin(
        vec!["jq", "-s", "add"],
        vfs,
        "1\n2\n3\n4",
    );

    let result = run(ctx);

    assert_eq!(result.code, 0);

    let output = String::from_utf8(stdout.get_buffer().unwrap()).unwrap();
    assert_eq!(output.trim(), "10");
}

#[test]
fn jq_slurp_long_option() {
    let vfs = Rc::new(RefCell::new(Vfs::new()));
    let (ctx, stdout, _stderr) = make_ctx_with_stdin(
        vec!["jq", "--slurp", "-c", "."],
        vfs,
        r#"{"a":1}
{"b":2}"#,
    );

    let result = run(ctx);

    assert_eq!(result.code, 0);

    let output = String::from_utf8(stdout.get_buffer().unwrap()).unwrap();
    assert!(output.contains('['));
    assert!(output.contains(']'));
}

// Exit status (-e) tests

#[test]
fn jq_exit_status_null() {
    let vfs = Rc::new(RefCell::new(Vfs::new()));
    let (ctx, _stdout, _stderr) = make_ctx_with_stdin(
        vec!["jq", "-e", ".missing"],
        vfs,
        r#"{}"#,
    );

    let result = run(ctx);

    // Missing field returns null, which is falsy, so exit code 1
    assert_eq!(result.code, 1);
}

#[test]
fn jq_exit_status_false() {
    let vfs = Rc::new(RefCell::new(Vfs::new()));
    let (ctx, _stdout, _stderr) =
        make_ctx_with_stdin(vec!["jq", "-e", "."], vfs, "false");

    let result = run(ctx);

    assert_eq!(result.code, 1);
}

#[test]
fn jq_exit_status_true() {
    let vfs = Rc::new(RefCell::new(Vfs::new()));
    let (ctx, _stdout, _stderr) =
        make_ctx_with_stdin(vec!["jq", "-e", "."], vfs, "true");

    let result = run(ctx);

    assert_eq!(result.code, 0);
}

#[test]
fn jq_exit_status_number() {
    // Numbers (including 0) are NOT falsy
    let vfs = Rc::new(RefCell::new(Vfs::new()));
    let (ctx, _stdout, _stderr) =
        make_ctx_with_stdin(vec!["jq", "-e", "."], vfs, "0");

    let result = run(ctx);

    assert_eq!(result.code, 0);
}

#[test]
fn jq_exit_status_empty_string() {
    // Empty string is NOT falsy
    let vfs = Rc::new(RefCell::new(Vfs::new()));
    let (ctx, _stdout, _stderr) =
        make_ctx_with_stdin(vec!["jq", "-e", "."], vfs, r#""""#);

    let result = run(ctx);

    assert_eq!(result.code, 0);
}

#[test]
fn jq_exit_status_long_option() {
    let vfs = Rc::new(RefCell::new(Vfs::new()));
    let (ctx, _stdout, _stderr) = make_ctx_with_stdin(
        vec!["jq", "--exit-status", "."],
        vfs,
        "null",
    );

    let result = run(ctx);

    assert_eq!(result.code, 1);
}

// No newline (-j) tests

#[test]
fn jq_no_newline() {
    let vfs = Rc::new(RefCell::new(Vfs::new()));
    let (ctx, stdout, _stderr) =
        make_ctx_with_stdin(vec!["jq", "-j", "."], vfs, "42");

    let result = run(ctx);

    assert_eq!(result.code, 0);

    let output = String::from_utf8(stdout.get_buffer().unwrap()).unwrap();
    assert_eq!(output, "42"); // No trailing newline
}

#[test]
fn jq_no_newline_long_option() {
    let vfs = Rc::new(RefCell::new(Vfs::new()));
    let (ctx, stdout, _stderr) = make_ctx_with_stdin(
        vec!["jq", "--join-output", "-r", "."],
        vfs,
        r#""hello""#,
    );

    let result = run(ctx);

    assert_eq!(result.code, 0);

    let output = String::from_utf8(stdout.get_buffer().unwrap()).unwrap();
    assert_eq!(output, "hello"); // No trailing newline, raw output
}

// File input tests

#[test]
fn jq_read_from_file() {
    let vfs = Rc::new(RefCell::new(Vfs::new()));
    vfs.borrow_mut()
        .write_file(
            "/workspace/data.json",
            br#"{"name":"from file"}"#,
            Permission::ReadWrite,
        )
        .unwrap();

    let (ctx, stdout, _stderr) = make_ctx_with_vfs(
        vec!["jq", "-r", ".name", "/workspace/data.json"],
        vfs,
    );

    let result = run(ctx);

    assert_eq!(result.code, 0);

    let output = String::from_utf8(stdout.get_buffer().unwrap()).unwrap();
    assert_eq!(output.trim(), "from file");
}

#[test]
fn jq_read_multiple_files() {
    let vfs = Rc::new(RefCell::new(Vfs::new()));
    vfs.borrow_mut()
        .write_file("/workspace/a.json", br#"{"x":1}"#, Permission::ReadWrite)
        .unwrap();
    vfs.borrow_mut()
        .write_file("/workspace/b.json", br#"{"x":2}"#, Permission::ReadWrite)
        .unwrap();

    let (ctx, stdout, _stderr) = make_ctx_with_vfs(
        vec!["jq", ".x", "/workspace/a.json", "/workspace/b.json"],
        vfs,
    );

    let result = run(ctx);

    assert_eq!(result.code, 0);

    let output = String::from_utf8(stdout.get_buffer().unwrap()).unwrap();
    assert!(output.contains('1'));
    assert!(output.contains('2'));
}

#[test]
fn jq_nonexistent_file() {
    let vfs = Rc::new(RefCell::new(Vfs::new()));

    let (ctx, _stdout, stderr) = make_ctx_with_vfs(
        vec!["jq", ".", "/workspace/missing.json"],
        vfs,
    );

    let result = run(ctx);

    assert_eq!(result.code, 2);

    let err_output = String::from_utf8(stderr.get_buffer().unwrap()).unwrap();
    assert!(err_output.contains("jq:"));
    assert!(err_output.contains("missing.json"));
}

// Error handling tests

#[test]
fn jq_compile_error() {
    let vfs = Rc::new(RefCell::new(Vfs::new()));
    let (ctx, _stdout, stderr) =
        make_ctx_with_stdin(vec!["jq", "[[["], vfs, "{}");

    let result = run(ctx);

    assert_eq!(result.code, 3);

    let err_output = String::from_utf8(stderr.get_buffer().unwrap()).unwrap();
    assert!(err_output.contains("jq: compile error"));
}

#[test]
fn jq_parse_error() {
    let vfs = Rc::new(RefCell::new(Vfs::new()));
    let (ctx, _stdout, stderr) =
        make_ctx_with_stdin(vec!["jq", "."], vfs, "not valid json");

    let result = run(ctx);

    // Parse errors should result in an error
    let err_output = String::from_utf8(stderr.get_buffer().unwrap()).unwrap();
    assert!(err_output.contains("jq: parse error"));
}

#[test]
fn jq_empty_input() {
    let vfs = Rc::new(RefCell::new(Vfs::new()));
    let (ctx, stdout, _stderr) =
        make_ctx_with_stdin(vec!["jq", "."], vfs, "");

    let result = run(ctx);

    // Empty input should succeed with no output
    assert_eq!(result.code, 0);

    let output = stdout.get_buffer().unwrap();
    assert!(output.is_empty());
}

#[test]
fn jq_whitespace_only_input() {
    let vfs = Rc::new(RefCell::new(Vfs::new()));
    let (ctx, stdout, _stderr) =
        make_ctx_with_stdin(vec!["jq", "."], vfs, "   \n  \n  ");

    let result = run(ctx);

    assert_eq!(result.code, 0);

    let output = stdout.get_buffer().unwrap();
    assert!(output.is_empty());
}

// NDJSON (newline-delimited JSON) tests

#[test]
fn jq_ndjson_processing() {
    let vfs = Rc::new(RefCell::new(Vfs::new()));
    let ndjson = r#"{"a":1}
{"a":2}
{"a":3}"#;
    let (ctx, stdout, _stderr) =
        make_ctx_with_stdin(vec!["jq", ".a"], vfs, ndjson);

    let result = run(ctx);

    assert_eq!(result.code, 0);

    let output = String::from_utf8(stdout.get_buffer().unwrap()).unwrap();
    assert!(output.contains('1'));
    assert!(output.contains('2'));
    assert!(output.contains('3'));
}

#[test]
fn jq_ndjson_with_blank_lines() {
    let vfs = Rc::new(RefCell::new(Vfs::new()));
    let ndjson = r#"{"x":1}

{"x":2}
"#;
    let (ctx, stdout, _stderr) =
        make_ctx_with_stdin(vec!["jq", ".x"], vfs, ndjson);

    let result = run(ctx);

    assert_eq!(result.code, 0);

    let output = String::from_utf8(stdout.get_buffer().unwrap()).unwrap();
    assert!(output.contains('1'));
    assert!(output.contains('2'));
}

// Array iteration tests

#[test]
fn jq_array_iteration() {
    let vfs = Rc::new(RefCell::new(Vfs::new()));
    let (ctx, stdout, _stderr) = make_ctx_with_stdin(
        vec!["jq", ".[]"],
        vfs,
        r#"["a","b","c"]"#,
    );

    let result = run(ctx);

    assert_eq!(result.code, 0);

    let output = String::from_utf8(stdout.get_buffer().unwrap()).unwrap();
    assert!(output.contains("\"a\""));
    assert!(output.contains("\"b\""));
    assert!(output.contains("\"c\""));
}

#[test]
fn jq_array_element_access() {
    let vfs = Rc::new(RefCell::new(Vfs::new()));
    let (ctx, stdout, _stderr) =
        make_ctx_with_stdin(vec!["jq", ".[1]"], vfs, r#"[10,20,30]"#);

    let result = run(ctx);

    assert_eq!(result.code, 0);

    let output = String::from_utf8(stdout.get_buffer().unwrap()).unwrap();
    assert_eq!(output.trim(), "20");
}

// Complex filter tests

#[test]
fn jq_pipe_chain() {
    let vfs = Rc::new(RefCell::new(Vfs::new()));
    let (ctx, stdout, _stderr) = make_ctx_with_stdin(
        vec!["jq", ".items | .[] | .name"],
        vfs,
        r#"{"items":[{"name":"foo"},{"name":"bar"}]}"#,
    );

    let result = run(ctx);

    assert_eq!(result.code, 0);

    let output = String::from_utf8(stdout.get_buffer().unwrap()).unwrap();
    assert!(output.contains("\"foo\""));
    assert!(output.contains("\"bar\""));
}

#[test]
fn jq_select_filter() {
    let vfs = Rc::new(RefCell::new(Vfs::new()));
    let (ctx, stdout, _stderr) = make_ctx_with_stdin(
        vec!["jq", ".[] | select(.active)"],
        vfs,
        r#"[{"name":"a","active":true},{"name":"b","active":false},{"name":"c","active":true}]"#,
    );

    let result = run(ctx);

    assert_eq!(result.code, 0);

    let output = String::from_utf8(stdout.get_buffer().unwrap()).unwrap();
    assert!(output.contains("\"a\""));
    assert!(!output.contains("\"b\""));
    assert!(output.contains("\"c\""));
}

#[test]
fn jq_map_filter() {
    let vfs = Rc::new(RefCell::new(Vfs::new()));
    let (ctx, stdout, _stderr) = make_ctx_with_stdin(
        vec!["jq", "-c", "map(. + 10)"],
        vfs,
        r#"[1,2,3]"#,
    );

    let result = run(ctx);

    assert_eq!(result.code, 0);

    let output = String::from_utf8(stdout.get_buffer().unwrap()).unwrap();
    assert_eq!(output.trim(), "[11,12,13]");
}

#[test]
fn jq_object_construction() {
    let vfs = Rc::new(RefCell::new(Vfs::new()));
    let (ctx, stdout, _stderr) = make_ctx_with_stdin(
        vec!["jq", "-c", "{x: .a, y: .b}"],
        vfs,
        r#"{"a":1,"b":2,"c":3}"#,
    );

    let result = run(ctx);

    assert_eq!(result.code, 0);

    let output = String::from_utf8(stdout.get_buffer().unwrap()).unwrap();
    assert!(output.contains("\"x\""));
    assert!(output.contains("\"y\""));
    assert!(output.contains('1'));
    assert!(output.contains('2'));
}

// Combined options tests

#[test]
fn jq_raw_and_compact() {
    let vfs = Rc::new(RefCell::new(Vfs::new()));
    let (ctx, stdout, _stderr) = make_ctx_with_stdin(
        vec!["jq", "-r", "-c", ".name"],
        vfs,
        r#"{"name":"test"}"#,
    );

    let result = run(ctx);

    assert_eq!(result.code, 0);

    let output = String::from_utf8(stdout.get_buffer().unwrap()).unwrap();
    assert_eq!(output.trim(), "test");
}

#[test]
fn jq_slurp_and_compact() {
    let vfs = Rc::new(RefCell::new(Vfs::new()));
    let (ctx, stdout, _stderr) = make_ctx_with_stdin(
        vec!["jq", "-s", "-c", "map(.x)"],
        vfs,
        r#"{"x":1}
{"x":2}"#,
    );

    let result = run(ctx);

    assert_eq!(result.code, 0);

    let output = String::from_utf8(stdout.get_buffer().unwrap()).unwrap();
    assert_eq!(output.trim(), "[1,2]");
}

#[test]
fn jq_null_input_and_exit_status() {
    let vfs = Rc::new(RefCell::new(Vfs::new()));
    let (ctx, _stdout, _stderr) =
        make_ctx_with_stdin(vec!["jq", "-n", "-e", "null"], vfs, "");

    let result = run(ctx);

    assert_eq!(result.code, 1); // null is falsy
}

// Special JSON values tests

#[test]
fn jq_boolean_values() {
    let vfs = Rc::new(RefCell::new(Vfs::new()));
    let (ctx, stdout, _stderr) = make_ctx_with_stdin(
        vec!["jq", "-c", "."],
        vfs,
        r#"{"t":true,"f":false}"#,
    );

    let result = run(ctx);

    assert_eq!(result.code, 0);

    let output = String::from_utf8(stdout.get_buffer().unwrap()).unwrap();
    assert!(output.contains("true"));
    assert!(output.contains("false"));
}

#[test]
fn jq_null_value() {
    let vfs = Rc::new(RefCell::new(Vfs::new()));
    let (ctx, stdout, _stderr) =
        make_ctx_with_stdin(vec!["jq", "."], vfs, "null");

    let result = run(ctx);

    assert_eq!(result.code, 0);

    let output = String::from_utf8(stdout.get_buffer().unwrap()).unwrap();
    assert_eq!(output.trim(), "null");
}

#[test]
fn jq_nested_arrays_and_objects() {
    let vfs = Rc::new(RefCell::new(Vfs::new()));
    let (ctx, stdout, _stderr) = make_ctx_with_stdin(
        vec!["jq", ".a[0].b"],
        vfs,
        r#"{"a":[{"b":"deep"}]}"#,
    );

    let result = run(ctx);

    assert_eq!(result.code, 0);

    let output = String::from_utf8(stdout.get_buffer().unwrap()).unwrap();
    assert!(output.contains("\"deep\""));
}

#[test]
fn jq_unicode_strings() {
    let vfs = Rc::new(RefCell::new(Vfs::new()));
    let (ctx, stdout, _stderr) = make_ctx_with_stdin(
        vec!["jq", "-r", ".msg"],
        vfs,
        r#"{"msg":"Hello \u4e16\u754c"}"#,
    );

    let result = run(ctx);

    assert_eq!(result.code, 0);

    let output = String::from_utf8(stdout.get_buffer().unwrap()).unwrap();
    // Should contain the decoded unicode characters
    assert!(output.contains("Hello"));
}

#[test]
fn jq_escaped_strings() {
    let vfs = Rc::new(RefCell::new(Vfs::new()));
    let (ctx, stdout, _stderr) = make_ctx_with_stdin(
        vec!["jq", "-r", "."],
        vfs,
        r#""line1\nline2""#,
    );

    let result = run(ctx);

    assert_eq!(result.code, 0);

    let output = String::from_utf8(stdout.get_buffer().unwrap()).unwrap();
    // Raw output should show actual newline
    assert!(output.contains("line1\nline2"));
}

// Stdin with - argument tests

#[test]
fn jq_dash_for_stdin() {
    let vfs = Rc::new(RefCell::new(Vfs::new()));
    let (ctx, stdout, _stderr) =
        make_ctx_with_stdin(vec!["jq", ".", "-"], vfs, r#"{"x":99}"#);

    let result = run(ctx);

    assert_eq!(result.code, 0);

    let output = String::from_utf8(stdout.get_buffer().unwrap()).unwrap();
    assert!(output.contains("99"));
}

// Large number handling tests

#[test]
fn jq_large_integers() {
    let vfs = Rc::new(RefCell::new(Vfs::new()));
    let (ctx, stdout, _stderr) = make_ctx_with_stdin(
        vec!["jq", "."],
        vfs,
        r#"{"big":9007199254740993}"#,
    );

    let result = run(ctx);

    assert_eq!(result.code, 0);

    let output = String::from_utf8(stdout.get_buffer().unwrap()).unwrap();
    // The number should be preserved (though exact representation depends on jaq)
    assert!(output.contains("900719925474099"));
}

#[test]
fn jq_floating_point() {
    let vfs = Rc::new(RefCell::new(Vfs::new()));
    let (ctx, stdout, _stderr) =
        make_ctx_with_stdin(vec!["jq", ".x"], vfs, r#"{"x":3.14159}"#);

    let result = run(ctx);

    assert_eq!(result.code, 0);

    let output = String::from_utf8(stdout.get_buffer().unwrap()).unwrap();
    assert!(output.contains("3.14"));
}

// Laws and edges

#[test]
fn a_number_that_is_kept_as_text_is_printed_again() {
    for text in ["1.0", "1e1000", "-0.5", "100000000000000000000"] {
        let (vs, fault) = read_inputs(text, false);
        match fault {
            Some(e) => assert_eq!((text, vs.is_empty(), e.is_empty()), ("1e1000", true, false)),
            None => {
                assert!(is_printable(&vs[0]));
                assert_eq!(json(&format_val(&vs[0], true)), json(text));
            }
        }
    }
}

#[test]
fn a_number_that_json_cannot_hold_is_found_at_any_depth() {
    let bad = Val::Num(Rc::new("nan".to_string()));
    assert!(!is_printable(&bad));
    let good = Val::Num(Rc::new("1.5".to_string()));
    assert!(is_printable(&good));
    let row: Val = vec![Val::Null, Val::Int(3), good].into_iter().collect();
    assert!(is_printable(&row));
    let deep: Val = vec![row, vec![bad].into_iter().collect()].into_iter().collect();
    assert!(!is_printable(&deep));
}

fn plain() -> JqOptions {
    JqOptions { raw_output: false, compact: true, slurp: false, no_newline: false }
}

#[test]
fn results_are_written_up_to_the_first_failure() {
    let results = vec![
        Ok(Val::Int(1)),
        Ok(Val::Bool(false)),
        Err("boom".to_string()),
        Ok(Val::Int(2)),
    ];
    let batch = process_results(&results, &plain());
    assert_eq!(batch.out, "1\nfalse\n");
    assert_eq!(batch.err, "jq: error: boom\n");
    assert_eq!(batch.last, Some(true));
    assert!(matches!(batch.fault, Some(Fault::Io(e)) if e == "jq error: boom"));
}

#[test]
fn a_raw_text_is_written_as_it_is() {
    let results = vec![Ok(Val::from("a\"b".to_string())), Ok(Val::Null)];
    let mut o = plain();
    assert_eq!(process_results(&results, &o).out, "\"a\\\"b\"\nnull\n");
    o.raw_output = true;
    o.no_newline = true;
    assert_eq!(process_results(&results, &o).out, "a\"bnull");
}

#[test]
fn an_unwritable_value_ends_the_output() {
    let bad = Val::Num(Rc::new("nan".to_string()));
    let batch = process_results(&vec![Ok(Val::Int(7)), Ok(bad), Ok(Val::Int(8))], &plain());
    assert_eq!(batch.out, "7\n");
    assert!(matches!(batch.fault, Some(Fault::Unwritable)));
}

#[test]
fn inputs_are_one_document_or_one_per_line() {
    let (vs, fault) = read_inputs("{\"a\":\n1}", false);
    assert_eq!((vs.len(), fault), (1, None));
    let (vs, fault) = read_inputs("1\n\n 2 \n3", false);
    assert_eq!((vs, fault), (vec![Val::Int(1), Val::Int(2), Val::Int(3)], None));
    let (vs, fault) = read_inputs("1\n?\n3", false);
    assert_eq!(vs, vec![Val::Int(1)]);
    assert!(fault.unwrap().contains("line 1"));
    let (vs, fault) = read_inputs("1\n2", true);
    assert_eq!((vs, fault), (vec![Val::from(json("[1,2]"))], None));
}

#[test]
fn unknown_names_do_not_compile() {
    assert!(compile_filter("nosuchfilter").is_err());
    assert!(compile_filter("").is_err());
}

fn go(args: &[&str]) -> Jq {
    let argv: Vec<String> = args.iter().map(|s| s.to_string()).collect();
    match jq::run(&argv) {
        Start::Go(jq) => jq,
        Start::Done(said) => panic!("{}", said.err),
    }
}

#[test]
fn values_are_slurped_however_they_stand() {
    let mut jq = go(&["jq", "-s", "-c", "."]);
    assert_eq!(process_input(&mut jq, b"1 2").out, "[1,2]\n");
    assert_eq!(process_input(&mut jq, b"{\"a\":\n1}\n[2]").out, "[{\"a\":1},[2]]\n");
    assert_eq!(process_input(&mut jq, b"").out, "[]\n");
    let b = process_input(&mut jq, b"1 ?");
    assert_eq!(b.out, "");
    assert!(b.err.starts_with("jq: parse error: "));
    assert_eq!(join_inputs(&vec![b"1".to_vec(), b"2".to_vec()]), b"1\n2\n");
    assert_eq!(process_input(&mut jq, &join_inputs(&vec![b"1".to_vec(), b"2".to_vec()])).out, "[1,2]\n");
}

#[test]
fn a_value_is_written_before_more_is_asked_for() {
    let jq = go(&["jq", "-n", "-c", "repeat(1)"]);
    let b = run_session(&jq.filter, jq.start_null(), 6);
    assert_eq!((b.out.as_str(), b.fault.is_none()), ("1\n1\n1\n", true));
}

#[test]
fn a_session_goes_from_value_to_value() {
    let jq = go(&["jq", "-c", "."]);
    let mut s = jq.start(b"1\nnull\n?");
    assert_eq!(s.step(Event::Begun).turn, Turn::Run(0));
    let step = s.step(Event::Given(Val::Null));
    assert_eq!((step.batch.out.as_str(), step.turn, s.last), ("null\n", Turn::Next, Some(true)));
    assert_eq!(s.step(Event::Exhausted).turn, Turn::Run(1));
    assert_eq!(s.last, None);
    let step = s.step(Event::Exhausted);
    assert_eq!(step.turn, Turn::End);
    assert!(step.batch.err.starts_with("jq: parse error: "));
    assert!(matches!(step.batch.fault, Some(Fault::Io(_))));
}

#[test]
fn nothing_is_asked_for_behind_an_error() {
    let mut jq = go(&["jq", "-n", "-c", "1, error(\"x\"), last(repeat(1))"]);
    let b = process_null(&mut jq);
    assert_eq!((b.out.as_str(), b.err.as_str()), ("1\n", "jq: error: x\n"));
    assert!(matches!(b.fault, Some(Fault::Io(e)) if e == "jq error: x"));
}

#[test]
fn the_errors_of_a_filter_are_joined() {
    let errs = vec!["a".to_string(), "b".to_string()];
    assert_eq!(unread_filter(&errs, true), Some("a, b".to_string()));
    assert_eq!(unread_filter(&vec![], false), Some("failed to parse filter".to_string()));
    assert_eq!(unread_filter(&vec![], true), None);
}
