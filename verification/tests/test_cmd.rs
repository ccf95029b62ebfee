//! test.
#![allow(dead_code)]
use amla_sandbox_shell::commands::test_cmd::{self, binary_test, run, unary_test};
use amla_sandbox_shell::context::CmdContext;
use amla_sandbox_shell::env::Environment;
use amla_sandbox_shell::error::VfsError;
use amla_sandbox_shell::fs::{DirEntry, Node, Snapshot};
use amla_sandbox_shell::io_handle::IoHandle;

/// A tree of directories and files.
struct Vfs {
    dirs: Vec<String>,
    files: Vec<(String, Vec<u8>)>,
}

#[derive(Clone, Copy)]
enum Permission {
    ReadWrite,
}

impl Vfs {
    fn new() -> Vfs {
        Vfs { dirs: vec!["/".to_string(), "/workspace".to_string()], files: Vec::new() }
    }

    fn is_dir(&self, path: &str) -> bool {
        self.dirs.iter().any(|d| d == path)
    }

    fn has(&self, path: &str) -> bool {
        self.is_dir(path) || self.files.iter().any(|(f, _)| f == path)
    }

    fn create_dir(&mut self, path: &str, _p: Permission) -> Result<(), VfsError> {
        if self.has(path) {
            return Err(VfsError::AlreadyExists(path.to_string()));
        }
        self.dirs.push(path.to_string());
        Ok(())
    }

    fn create_dir_all(&mut self, path: &str, p: Permission) -> Result<(), VfsError> {
        let mut at = String::new();
        for part in path.split('/').filter(|s| !s.is_empty()) {
            at = format!("{at}/{part}");
            if !self.is_dir(&at) {
                self.create_dir(&at, p)?;
            }
        }
        Ok(())
    }

    fn write_file(&mut self, path: &str, data: &[u8], _p: Permission) -> Result<(), VfsError> {
        let parent = match path.rfind('/') {
            Some(0) | None => "/",
            Some(i) => &path[..i],
        };
        if !self.is_dir(parent) {
            return Err(VfsError::NotFound(parent.to_string()));
        }
        self.files.retain(|(f, _)| f != path);
        self.files.push((path.to_string(), data.to_vec()));
        Ok(())
    }

    fn read_file(&self, path: &str) -> Result<Vec<u8>, VfsError> {
        match self.files.iter().find(|(f, _)| f == path) {
            Some((_, data)) => Ok(data.clone()),
            None => Err(VfsError::NotFound(path.to_string())),
        }
    }

    fn children(&self, dir: &str) -> Vec<DirEntry> {
        let prefix = if dir == "/" { "/".to_string() } else { format!("{dir}/") };
        let mut entries: Vec<(String, bool)> = Vec::new();
        let dirs = self.dirs.iter().map(|d| (d, true));
        let files = self.files.iter().map(|(f, _)| (f, false));
        for (path, is_dir) in dirs.chain(files) {
            if let Some(name) = path.strip_prefix(&prefix) {
                if !name.is_empty() && !name.contains('/') {
                    entries.push((name.to_string(), is_dir));
                }
            }
        }
        entries.sort();
        entries.into_iter().map(|(name, is_dir)| DirEntry { name, is_dir }).collect()
    }

    fn snapshot(&self) -> Snapshot {
        let mut s = Snapshot::new();
        for d in &self.dirs {
            s.nodes.push((d.clone(), Node::Dir(self.children(d))));
        }
        for (f, data) in &self.files {
            s.nodes.push((f.clone(), Node::File(Some(data.len() as u64))));
        }
        s
    }
}

fn context(argv: &[String], cwd: &str, env: &Environment, fs: Snapshot) -> CmdContext {
    CmdContext::new(
        argv.to_vec(),
        IoHandle::null(),
        IoHandle::buffer(),
        IoHandle::buffer(),
        cwd.to_string(),
        env.duplicate(),
        fs,
    )
}

fn create_test_ctx(argv: Vec<&str>) -> CmdContext {
    let mut vfs = Vfs::new();
    vfs.create_dir("/workspace/testdir", Permission::ReadWrite).unwrap();
    vfs.write_file("/workspace/testfile", b"content", Permission::ReadWrite).unwrap();
    vfs.write_file("/workspace/emptyfile", b"", Permission::ReadWrite).unwrap();
    let argv: Vec<String> = argv.into_iter().map(String::from).collect();
    context(&argv, "/workspace", &Environment::new(), vfs.snapshot())
}

fn evaluate(ctx: &CmdContext, args: &[&str]) -> bool {
    let args: Vec<String> = args.iter().map(|s| s.to_string()).collect();
    test_cmd::evaluate(ctx, &args, 0, args.len())
}

// Binary Test - String Comparisons

#[test]
fn binary_string_equal_single() {
    assert!(binary_test("hello", "=", "hello"));
    assert!(!binary_test("hello", "=", "world"));
}

#[test]
fn binary_string_equal_double() {
    assert!(binary_test("foo", "==", "foo"));
    assert!(!binary_test("foo", "==", "bar"));
}

#[test]
fn binary_string_not_equal() {
    assert!(binary_test("a", "!=", "b"));
    assert!(!binary_test("same", "!=", "same"));
}

#[test]
fn binary_string_empty() {
    assert!(binary_test("", "=", ""));
    assert!(binary_test("", "!=", "x"));
    assert!(!binary_test("", "!=", ""));
}

// Binary Test - Numeric Comparisons

#[test]
fn binary_numeric_eq() {
    assert!(binary_test("42", "-eq", "42"));
    assert!(!binary_test("42", "-eq", "43"));
}

#[test]
fn binary_numeric_ne() {
    assert!(binary_test("10", "-ne", "20"));
    assert!(!binary_test("10", "-ne", "10"));
}

#[test]
fn binary_numeric_lt() {
    assert!(binary_test("5", "-lt", "10"));
    assert!(!binary_test("10", "-lt", "5"));
    assert!(!binary_test("10", "-lt", "10"));
}

#[test]
fn binary_numeric_le() {
    assert!(binary_test("5", "-le", "10"));
    assert!(binary_test("10", "-le", "10"));
    assert!(!binary_test("15", "-le", "10"));
}

#[test]
fn binary_numeric_gt() {
    assert!(binary_test("20", "-gt", "10"));
    assert!(!binary_test("10", "-gt", "20"));
    assert!(!binary_test("10", "-gt", "10"));
}

#[test]
fn binary_numeric_ge() {
    assert!(binary_test("20", "-ge", "10"));
    assert!(binary_test("10", "-ge", "10"));
    assert!(!binary_test("5", "-ge", "10"));
}

#[test]
fn binary_numeric_negative() {
    assert!(binary_test("-5", "-lt", "0"));
    assert!(binary_test("-10", "-lt", "-5"));
    assert!(binary_test("0", "-gt", "-1"));
}

#[test]
fn binary_numeric_invalid_becomes_zero() {
    // Invalid numbers parse as 0
    assert!(binary_test("abc", "-eq", "0"));
    assert!(binary_test("abc", "-eq", "xyz"));
    assert!(binary_test("0", "-eq", "notanumber"));
}

#[test]
fn binary_unknown_operator() {
    assert!(!binary_test("a", "-unknown", "b"));
}

// Unary Test - String Tests (no VFS needed)

// Note: For -z and -n, we can test via evaluate() with mock-like behavior
// since they don't actually need filesystem access

// Integration tests with CmdContext

#[test]
fn unary_exists() {
    let ctx = create_test_ctx(vec!["test"]);
    assert!(unary_test(&ctx, "-e", "testfile"));
    assert!(unary_test(&ctx, "-e", "testdir"));
    assert!(!unary_test(&ctx, "-e", "nonexistent"));
}

#[test]
fn unary_is_file() {
    let ctx = create_test_ctx(vec!["test"]);
    assert!(unary_test(&ctx, "-f", "testfile"));
    assert!(!unary_test(&ctx, "-f", "testdir"));
    assert!(!unary_test(&ctx, "-f", "nonexistent"));
}

#[test]
fn unary_is_dir() {
    let ctx = create_test_ctx(vec!["test"]);
    assert!(unary_test(&ctx, "-d", "testdir"));
    assert!(!unary_test(&ctx, "-d", "testfile"));
    assert!(!unary_test(&ctx, "-d", "nonexistent"));
}

#[test]
fn unary_has_size() {
    let ctx = create_test_ctx(vec!["test"]);
    assert!(unary_test(&ctx, "-s", "testfile")); // has content
    assert!(!unary_test(&ctx, "-s", "emptyfile")); // empty
    assert!(!unary_test(&ctx, "-s", "nonexistent"));
}

#[test]
fn unary_readable_writable() {
    let ctx = create_test_ctx(vec!["test"]);
    // -r and -w just check existence
    assert!(unary_test(&ctx, "-r", "testfile"));
    assert!(unary_test(&ctx, "-w", "testfile"));
    assert!(!unary_test(&ctx, "-r", "nonexistent"));
}

#[test]
fn unary_executable() {
    let ctx = create_test_ctx(vec!["test"]);
    // -x always returns false
    assert!(!unary_test(&ctx, "-x", "testfile"));
}

#[test]
fn unary_string_zero() {
    let ctx = create_test_ctx(vec!["test"]);
    assert!(unary_test(&ctx, "-z", ""));
    assert!(!unary_test(&ctx, "-z", "nonempty"));
}

#[test]
fn unary_string_nonzero() {
    let ctx = create_test_ctx(vec!["test"]);
    assert!(unary_test(&ctx, "-n", "nonempty"));
    assert!(!unary_test(&ctx, "-n", ""));
}

#[test]
fn unary_default_nonempty() {
    let ctx = create_test_ctx(vec!["test"]);
    // Unknown operator with non-empty string returns true
    assert!(unary_test(&ctx, "-unknown", "something"));
    assert!(!unary_test(&ctx, "-unknown", ""));
}

// Evaluate - Logical Operations

#[test]
fn evaluate_empty() {
    let ctx = create_test_ctx(vec!["test"]);
    assert!(!evaluate(&ctx, &[]));
}

#[test]
fn evaluate_single_nonempty() {
    let ctx = create_test_ctx(vec!["test"]);
    assert!(evaluate(&ctx, &["hello"]));
    assert!(!evaluate(&ctx, &[""]));
}

#[test]
fn evaluate_negation() {
    let ctx = create_test_ctx(vec!["test"]);
    assert!(evaluate(&ctx, &["!", ""]));
    assert!(!evaluate(&ctx, &["!", "hello"]));
}

#[test]
fn evaluate_double_negation() {
    let ctx = create_test_ctx(vec!["test"]);
    assert!(evaluate(&ctx, &["!", "!", "hello"]));
}

#[test]
fn evaluate_and_operator() {
    let ctx = create_test_ctx(vec!["test"]);
    assert!(evaluate(&ctx, &["hello", "-a", "world"]));
    assert!(!evaluate(&ctx, &["hello", "-a", ""]));
    assert!(!evaluate(&ctx, &["", "-a", "world"]));
}

#[test]
fn evaluate_or_operator() {
    let ctx = create_test_ctx(vec!["test"]);
    assert!(evaluate(&ctx, &["hello", "-o", ""]));
    assert!(evaluate(&ctx, &["", "-o", "world"]));
    assert!(!evaluate(&ctx, &["", "-o", ""]));
}

#[test]
fn evaluate_parentheses() {
    let ctx = create_test_ctx(vec!["test"]);
    assert!(evaluate(&ctx, &["(", "hello", ")"]));
    assert!(!evaluate(&ctx, &["(", "", ")"]));
}

#[test]
fn evaluate_parentheses_with_and() {
    let ctx = create_test_ctx(vec!["test"]);
    assert!(evaluate(&ctx, &["(", "a", ")", "-a", "b"]));
    assert!(!evaluate(&ctx, &["(", "", ")", "-a", "b"]));
}

#[test]
fn evaluate_parentheses_with_or() {
    let ctx = create_test_ctx(vec!["test"]);
    assert!(evaluate(&ctx, &["(", "", ")", "-o", "b"]));
}

#[test]
fn evaluate_nested_parentheses() {
    let ctx = create_test_ctx(vec!["test"]);
    assert!(evaluate(&ctx, &["(", "(", "hello", ")", ")"]));
}

#[test]
fn evaluate_binary_string() {
    let ctx = create_test_ctx(vec!["test"]);
    assert!(evaluate(&ctx, &["foo", "=", "foo"]));
    assert!(!evaluate(&ctx, &["foo", "=", "bar"]));
    assert!(evaluate(&ctx, &["foo", "!=", "bar"]));
}

#[test]
fn evaluate_binary_numeric() {
    let ctx = create_test_ctx(vec!["test"]);
    assert!(evaluate(&ctx, &["5", "-lt", "10"]));
    assert!(evaluate(&ctx, &["10", "-eq", "10"]));
    assert!(evaluate(&ctx, &["20", "-gt", "10"]));
}

#[test]
fn evaluate_unary_file() {
    let ctx = create_test_ctx(vec!["test"]);
    assert!(evaluate(&ctx, &["-e", "testfile"]));
    assert!(evaluate(&ctx, &["-f", "testfile"]));
    assert!(evaluate(&ctx, &["-d", "testdir"]));
    assert!(evaluate(&ctx, &["!", "-e", "nonexistent"]));
}

#[test]
fn evaluate_complex() {
    let ctx = create_test_ctx(vec!["test"]);
    // "a" -a "b" -o ""  -> should be true (a && b is true, then || "" doesn't matter)
    assert!(evaluate(&ctx, &["a", "-a", "b"]));
}

// Run function tests

#[test]
fn run_empty_args() {
    let ctx = create_test_ctx(vec!["test"]);

    let result = run(&ctx);
    assert_eq!(result.code, 1); // Empty args returns false (exit code 1)
}

#[test]
fn run_bracket_command() {
    let ctx = create_test_ctx(vec!["[", "hello", "]"]);

    let result = run(&ctx);
    assert_eq!(result.code, 0); // Non-empty string is true
}

#[test]
fn run_bracket_missing_close() {
    let ctx = create_test_ctx(vec!["[", "hello"]);

    let result = run(&ctx);
    assert_eq!(result.code, 2); // Missing ] is error
}

#[test]
fn run_test_true() {
    let ctx = create_test_ctx(vec!["test", "nonempty"]);

    let result = run(&ctx);
    assert_eq!(result.code, 0);
}

#[test]
fn run_test_false() {
    let ctx = create_test_ctx(vec!["test", ""]);

    let result = run(&ctx);
    assert_eq!(result.code, 1);
}

#[test]
fn run_test_file_exists() {
    let ctx = create_test_ctx(vec!["test", "-e", "testfile"]);

    let result = run(&ctx);
    assert_eq!(result.code, 0);
}

#[test]
fn run_test_file_not_exists() {
    let ctx = create_test_ctx(vec!["test", "-e", "nonexistent"]);

    let result = run(&ctx);
    assert_eq!(result.code, 1);
}

#[test]
fn run_test_negation() {
    let ctx = create_test_ctx(vec!["test", "!", "-e", "nonexistent"]);

    let result = run(&ctx);
    assert_eq!(result.code, 0); // ! false = true
}

#[test]
fn run_bracket_string_compare() {
    let ctx = create_test_ctx(vec!["[", "foo", "=", "foo", "]"]);

    let result = run(&ctx);
    assert_eq!(result.code, 0);
}

#[test]
fn run_bracket_numeric_compare() {
    let ctx = create_test_ctx(vec!["[", "5", "-lt", "10", "]"]);

    let result = run(&ctx);
    assert_eq!(result.code, 0);
}

// Additional Coverage Tests - Help Flags

#[test]
fn run_test_help_long() {
    let ctx = create_test_ctx(vec!["test", "--help"]);

    let result = run(&ctx);
    assert_eq!(result.code, 0); // Help should return success
}

#[test]
fn run_test_help_short() {
    let ctx = create_test_ctx(vec!["test", "-h"]);

    let result = run(&ctx);
    assert_eq!(result.code, 0); // Help should return success
}

#[test]
fn run_bracket_no_help() {
    // [ command should NOT show help even with --help
    let ctx = create_test_ctx(vec!["[", "--help", "]"]);

    let result = run(&ctx);
    // --help is treated as a non-empty string, so returns true (exit 0)
    assert_eq!(result.code, 0);
}

// Additional Coverage Tests - Bracket Command Edge Cases

#[test]
fn run_bracket_empty_expression() {
    let ctx = create_test_ctx(vec!["[", "]"]);

    let result = run(&ctx);
    assert_eq!(result.code, 1); // Empty expression returns false
}

#[test]
fn run_bracket_only_close() {
    // Just "]" without "[" - this would be called as "test ]"
    let ctx = create_test_ctx(vec!["test", "]"]);

    let result = run(&ctx);
    // "]" is a non-empty string, so returns true
    assert_eq!(result.code, 0);
}

// Additional Coverage Tests - Negation Edge Cases

#[test]
fn evaluate_negation_empty_becomes_true() {
    let ctx = create_test_ctx(vec!["test"]);
    // "!" alone with nothing else - negates an empty evaluation
    assert!(evaluate(&ctx, &["!"]));
}

#[test]
fn evaluate_triple_negation() {
    let ctx = create_test_ctx(vec!["test"]);
    assert!(!evaluate(&ctx, &["!", "!", "!", "hello"]));
}

#[test]
fn evaluate_negation_with_file_test() {
    let ctx = create_test_ctx(vec!["test"]);
    assert!(evaluate(&ctx, &["!", "-f", "nonexistent"]));
    assert!(!evaluate(&ctx, &["!", "-f", "testfile"]));
}

// Additional Coverage Tests - Complex Boolean Expressions

#[test]
fn evaluate_multiple_and() {
    let ctx = create_test_ctx(vec!["test"]);
    // a -a b -a c should all be true
    assert!(evaluate(&ctx, &["a", "-a", "b", "-a", "c"]));
    // Empty in the middle should fail
    assert!(!evaluate(&ctx, &["a", "-a", "", "-a", "c"]));
}

#[test]
fn evaluate_multiple_or() {
    let ctx = create_test_ctx(vec!["test"]);
    // At least one true should succeed
    assert!(evaluate(&ctx, &["", "-o", "", "-o", "c"]));
    // All empty should fail
    assert!(!evaluate(&ctx, &["", "-o", "", "-o", ""]));
}

#[test]
fn evaluate_and_or_mixed() {
    let ctx = create_test_ctx(vec!["test"]);
    // In standard test, -a has higher precedence than -o
    // a -a b -o c means (a && b) || c
    // -a is found first and splits
    assert!(evaluate(&ctx, &["a", "-a", "b", "-o", "c"]));
    // "" -a b -o c: (-a splits first) left="" right="b -o c"
    // "" is false, so left is false; then right evaluates "b -o c"
    // But since -a split happened, it's: evaluate("") && evaluate("b -o c")
    // = false && true = false
    assert!(!evaluate(&ctx, &["", "-a", "b", "-o", "c"]));
    // a -o "" -a b: -a splits first: left="a -o """  right="b"
    // evaluate("a -o """) = true, evaluate("b") = true
    // = true && true = true
    assert!(evaluate(&ctx, &["a", "-o", "", "-a", "b"]));
}

#[test]
fn evaluate_or_with_file_tests() {
    let ctx = create_test_ctx(vec!["test"]);
    assert!(evaluate(
        &ctx,
        &["-e", "testfile", "-o", "-e", "nonexistent"]
    ));
    assert!(evaluate(
        &ctx,
        &["-e", "nonexistent", "-o", "-e", "testfile"]
    ));
    assert!(!evaluate(&ctx, &["-e", "nope1", "-o", "-e", "nope2"]));
}

#[test]
fn evaluate_and_with_file_tests() {
    let ctx = create_test_ctx(vec!["test"]);
    assert!(evaluate(&ctx, &["-e", "testfile", "-a", "-d", "testdir"]));
    assert!(!evaluate(
        &ctx,
        &["-e", "testfile", "-a", "-e", "nonexistent"]
    ));
}

// Additional Coverage Tests - Parentheses Edge Cases

#[test]
fn evaluate_unmatched_open_paren() {
    let ctx = create_test_ctx(vec!["test"]);
    // Unmatched "(" - the parenthesis handling loop runs but depth never reaches 0.
    // When the loop ends without finding a matching ")", the code falls through
    // to the single-arg check: args.len() == 1, and "(" is non-empty, so returns true.
    assert!(evaluate(&ctx, &["("]));
}

#[test]
fn evaluate_paren_with_negation_inside() {
    let ctx = create_test_ctx(vec!["test"]);
    assert!(evaluate(&ctx, &["(", "!", "", ")"]));
    assert!(!evaluate(&ctx, &["(", "!", "hello", ")"]));
}

#[test]
fn evaluate_negation_of_paren() {
    let ctx = create_test_ctx(vec!["test"]);
    assert!(evaluate(&ctx, &["!", "(", "", ")"]));
    assert!(!evaluate(&ctx, &["!", "(", "hello", ")"]));
}

#[test]
fn evaluate_paren_with_binary() {
    let ctx = create_test_ctx(vec!["test"]);
    assert!(evaluate(&ctx, &["(", "foo", "=", "foo", ")"]));
    assert!(!evaluate(&ctx, &["(", "foo", "=", "bar", ")"]));
}

#[test]
fn evaluate_complex_nested_parens() {
    let ctx = create_test_ctx(vec!["test"]);
    // ( ( a ) -a ( b ) )
    assert!(evaluate(
        &ctx,
        &["(", "(", "a", ")", "-a", "(", "b", ")", ")"]
    ));
    assert!(!evaluate(
        &ctx,
        &["(", "(", "", ")", "-a", "(", "b", ")", ")"]
    ));
}

// Additional Coverage Tests - Numeric Edge Cases

#[test]
fn binary_numeric_large_numbers() {
    assert!(binary_test(
        "9223372036854775807",
        "-eq",
        "9223372036854775807"
    )); // i64::MAX
    assert!(binary_test("-9223372036854775808", "-lt", "0")); // i64::MIN
}

#[test]
fn binary_numeric_overflow_becomes_zero() {
    // Numbers larger than i64::MAX should parse as 0
    assert!(binary_test("99999999999999999999999", "-eq", "0"));
}

#[test]
fn binary_numeric_leading_zeros() {
    assert!(binary_test("007", "-eq", "7"));
    assert!(binary_test("0042", "-eq", "42"));
}

#[test]
fn binary_numeric_with_plus_sign() {
    // Rust's parse::<i64>() accepts leading + sign
    assert!(binary_test("+5", "-eq", "5"));
    assert!(binary_test("+10", "-gt", "+5"));
}

#[test]
fn binary_numeric_whitespace_invalid() {
    // Strings with whitespace should parse as 0
    assert!(binary_test(" 5", "-eq", "0"));
    assert!(binary_test("5 ", "-eq", "0"));
}

// Additional Coverage Tests - String Edge Cases

#[test]
fn binary_string_with_spaces() {
    assert!(binary_test("hello world", "=", "hello world"));
    assert!(binary_test(" ", "=", " "));
    assert!(binary_test("", "!=", " "));
}

#[test]
fn binary_string_special_chars() {
    assert!(binary_test("foo=bar", "=", "foo=bar"));
    assert!(binary_test("-n", "=", "-n"));
    assert!(binary_test("(", "=", "("));
}

#[test]
fn evaluate_string_that_looks_like_operator() {
    let ctx = create_test_ctx(vec!["test"]);
    // Single "-n" should be treated as non-empty string
    assert!(evaluate(&ctx, &["-n"]));
    // "-a" alone is also a non-empty string
    assert!(evaluate(&ctx, &["-a"]));
}

// Additional Coverage Tests - Run Function Edge Cases

#[test]
fn run_test_complex_expression() {
    let ctx = create_test_ctx(vec![
        "test", "(", "-e", "testfile", ")", "-a", "(", "-d", "testdir", ")",
    ]);

    let result = run(&ctx);
    assert_eq!(result.code, 0);
}

#[test]
fn run_bracket_with_parentheses() {
    let ctx = create_test_ctx(vec!["[", "(", "hello", ")", "]"]);

    let result = run(&ctx);
    assert_eq!(result.code, 0);
}

#[test]
fn run_test_string_z_empty() {
    let ctx = create_test_ctx(vec!["test", "-z", ""]);

    let result = run(&ctx);
    assert_eq!(result.code, 0); // Empty string, -z is true
}

#[test]
fn run_test_string_z_nonempty() {
    let ctx = create_test_ctx(vec!["test", "-z", "hello"]);

    let result = run(&ctx);
    assert_eq!(result.code, 1); // Non-empty string, -z is false
}

#[test]
fn run_test_string_n_empty() {
    let ctx = create_test_ctx(vec!["test", "-n", ""]);

    let result = run(&ctx);
    assert_eq!(result.code, 1); // Empty string, -n is false
}

#[test]
fn run_test_string_n_nonempty() {
    let ctx = create_test_ctx(vec!["test", "-n", "hello"]);

    let result = run(&ctx);
    assert_eq!(result.code, 0); // Non-empty string, -n is true
}

#[test]
fn run_test_directory_check() {
    let ctx = create_test_ctx(vec!["test", "-d", "testdir"]);

    let result = run(&ctx);
    assert_eq!(result.code, 0);
}

#[test]
fn run_test_file_size() {
    let ctx = create_test_ctx(vec!["test", "-s", "testfile"]);

    let result = run(&ctx);
    assert_eq!(result.code, 0); // testfile has content
}

#[test]
fn run_test_empty_file_size() {
    let ctx = create_test_ctx(vec!["test", "-s", "emptyfile"]);

    let result = run(&ctx);
    assert_eq!(result.code, 1); // emptyfile is empty
}
