//! Glob patterns.
#![allow(dead_code)]
use std::cell::RefCell;
use std::rc::Rc;

use amla_sandbox_shell::error::VfsError;
use amla_sandbox_shell::fs::{DirEntry, Node, Snapshot};
use amla_sandbox_shell::glob::{expand_glob, glob_match, is_glob_pattern, match_bracket};

/// A tree of directories and files.
struct Vfs {
    dirs: Vec<String>,
    files: Vec<(String, Vec<u8>)>,
}

#[derive(Clone, Copy)]
enum Permission {
    ReadWrite,
}

impl Vfs {
    fn new() -> Vfs {
        Vfs { dirs: vec!["/".to_string(), "/workspace".to_string()], files: Vec::new() }
    }

    fn is_dir(&self, path: &str) -> bool {
        self.dirs.iter().any(|d| d == path)
    }

    fn has(&self, path: &str) -> bool {
        self.is_dir(path) || self.files.iter().any(|(f, _)| f == path)
    }

    fn create_dir(&mut self, path: &str, _p: Permission) -> Result<(), VfsError> {
        if self.has(path) {
            return Err(VfsError::AlreadyExists(path.to_string()));
        }
        self.dirs.push(path.to_string());
        Ok(())
    }

    fn create_dir_all(&mut self, path: &str, p: Permission) -> Result<(), VfsError> {
        let mut at = String::new();
        for part in path.split('/').filter(|s| !s.is_empty()) {
            at = format!("{at}/{part}");
            if !self.is_dir(&at) {
                self.create_dir(&at, p)?;
            }
        }
        Ok(())
    }

    fn write_file(&mut self, path: &str, data: &[u8], _p: Permission) -> Result<(), VfsError> {
        let parent = match path.rfind('/') {
            Some(0) | None => "/",
            Some(i) => &path[..i],
        };
        if !self.is_dir(parent) {
            return Err(VfsError::NotFound(parent.to_string()));
        }
        self.files.retain(|(f, _)| f != path);
        self.files.push((path.to_string(), data.to_vec()));
        Ok(())
    }

    fn read_file(&self, path: &str) -> Result<Vec<u8>, VfsError> {
        match self.files.iter().find(|(f, _)| f == path) {
            Some((_, data)) => Ok(data.clone()),
            None => Err(VfsError::NotFound(path.to_string())),
        }
    }

    fn children(&self, dir: &str) -> Vec<DirEntry> {
        let prefix = if dir == "/" { "/".to_string() } else { format!("{dir}/") };
        let mut entries: Vec<(String, bool)> = Vec::new();
        let dirs = self.dirs.iter().map(|d| (d, true));
        let files = self.files.iter().map(|(f, _)| (f, false));
        for (path, is_dir) in dirs.chain(files) {
            if let Some(name) = path.strip_prefix(&prefix) {
                if !name.is_empty() && !name.contains('/') {
                    entries.push((name.to_string(), is_dir));
                }
            }
        }
        entries.sort();
        entries.into_iter().map(|(name, is_dir)| DirEntry { name, is_dir }).collect()
    }

    fn snapshot(&self) -> Snapshot {
        let mut s = Snapshot::new();
        for d in &self.dirs {
            s.nodes.push((d.clone(), Node::Dir(self.children(d))));
        }
        for (f, data) in &self.files {
            s.nodes.push((f.clone(), Node::File(Some(data.len() as u64))));
        }
        s
    }
}

// is_glob_pattern tests

#[test]
fn is_glob_star() {
    assert!(is_glob_pattern("*.txt"));
    assert!(is_glob_pattern("file*"));
    assert!(is_glob_pattern("*"));
}

#[test]
fn is_glob_question() {
    assert!(is_glob_pattern("file?.txt"));
    assert!(is_glob_pattern("?"));
}

#[test]
fn is_glob_bracket() {
    assert!(is_glob_pattern("[abc]"));
    assert!(is_glob_pattern("file[0-9].txt"));
}

#[test]
fn is_glob_escaped() {
    // Escaped metacharacters should not trigger glob
    assert!(!is_glob_pattern("file\\*.txt"));
    assert!(!is_glob_pattern("file\\?.txt"));
}

#[test]
fn is_glob_plain() {
    assert!(!is_glob_pattern("file.txt"));
    assert!(!is_glob_pattern("path/to/file"));
    assert!(!is_glob_pattern(""));
}

// glob_match tests - star

#[test]
fn match_star_prefix() {
    assert!(glob_match("*.txt", "file.txt"));
    assert!(glob_match("*.txt", ".txt"));
    assert!(!glob_match("*.txt", "file.log"));
}

#[test]
fn match_star_suffix() {
    assert!(glob_match("file*", "file.txt"));
    assert!(glob_match("file*", "file"));
    assert!(!glob_match("file*", "other.txt"));
}

#[test]
fn match_star_middle() {
    assert!(glob_match("f*e", "file"));
    assert!(glob_match("f*e", "fe"));
    assert!(glob_match("f*e", "foobare"));
    assert!(!glob_match("f*e", "foo"));
}

#[test]
fn match_star_only() {
    assert!(glob_match("*", "anything"));
    assert!(glob_match("*", ""));
}

#[test]
fn match_multiple_stars() {
    assert!(glob_match("*.*", "file.txt"));
    assert!(glob_match("*.*", ".txt"));
    assert!(glob_match("*.*", "a.b"));
    assert!(!glob_match("*.*", "noext"));
}

// glob_match tests - question mark

#[test]
fn match_question() {
    assert!(glob_match("file?.txt", "file1.txt"));
    assert!(glob_match("file?.txt", "fileA.txt"));
    assert!(!glob_match("file?.txt", "file.txt"));
    assert!(!glob_match("file?.txt", "file12.txt"));
}

#[test]
fn match_multiple_questions() {
    assert!(glob_match("???", "abc"));
    assert!(!glob_match("???", "ab"));
    assert!(!glob_match("???", "abcd"));
}

// glob_match tests - brackets

#[test]
fn match_bracket_set() {
    assert!(glob_match("[abc]", "a"));
    assert!(glob_match("[abc]", "b"));
    assert!(glob_match("[abc]", "c"));
    assert!(!glob_match("[abc]", "d"));
}

#[test]
fn match_bracket_range() {
    assert!(glob_match("[a-z]", "m"));
    assert!(glob_match("[0-9]", "5"));
    assert!(!glob_match("[a-z]", "M"));
    assert!(!glob_match("[0-9]", "a"));
}

#[test]
fn match_bracket_negate() {
    assert!(glob_match("[!abc]", "d"));
    assert!(!glob_match("[!abc]", "a"));
    assert!(glob_match("[^0-9]", "x"));
    assert!(!glob_match("[^0-9]", "5"));
}

#[test]
fn match_bracket_in_pattern() {
    assert!(glob_match("file[0-9].txt", "file5.txt"));
    assert!(!glob_match("file[0-9].txt", "fileA.txt"));
}

// glob_match tests - escape

#[test]
fn match_escaped_star() {
    assert!(glob_match("file\\*.txt", "file*.txt"));
    assert!(!glob_match("file\\*.txt", "fileX.txt"));
}

#[test]
fn match_escaped_question() {
    assert!(glob_match("file\\?.txt", "file?.txt"));
    assert!(!glob_match("file\\?.txt", "fileX.txt"));
}

// glob_match tests - edge cases

#[test]
fn match_empty_pattern() {
    assert!(glob_match("", ""));
    assert!(!glob_match("", "x"));
}

#[test]
fn match_literal() {
    assert!(glob_match("exact", "exact"));
    assert!(!glob_match("exact", "other"));
}

#[test]
fn match_complex() {
    assert!(glob_match("*.tar.gz", "archive.tar.gz"));
    assert!(glob_match("test_*.rs", "test_foo.rs"));
    assert!(glob_match("[A-Z]*[0-9]", "File1"));
    assert!(!glob_match("[A-Z]*[0-9]", "file1"));
}

// expand_glob tests (require VFS)

#[test]
fn expand_no_glob() {
    let vfs = Rc::new(RefCell::new(Vfs::new()));
    let result = expand_glob(&vfs.borrow().snapshot(), "/", "plain.txt");
    assert_eq!(result, vec!["plain.txt"]);
}

#[test]
fn expand_no_matches() {
    let vfs = Rc::new(RefCell::new(Vfs::new()));
    // No files in VFS, pattern returns as-is
    let result = expand_glob(&vfs.borrow().snapshot(), "/workspace", "*.nonexistent");
    assert_eq!(result, vec!["*.nonexistent"]);
}

#[test]
fn expand_with_matches() {
    let vfs = Rc::new(RefCell::new(Vfs::new()));
    {
        let mut v = vfs.borrow_mut();
        v.write_file("/workspace/file1.txt", b"", Permission::ReadWrite)
            .unwrap();
        v.write_file("/workspace/file2.txt", b"", Permission::ReadWrite)
            .unwrap();
        v.write_file("/workspace/other.log", b"", Permission::ReadWrite)
            .unwrap();
    }

    let result = expand_glob(&vfs.borrow().snapshot(), "/workspace", "*.txt");
    assert_eq!(result, vec!["file1.txt", "file2.txt"]);
}

#[test]
fn expand_with_path() {
    let vfs = Rc::new(RefCell::new(Vfs::new()));
    {
        let mut v = vfs.borrow_mut();
        v.create_dir("/workspace/subdir", Permission::ReadWrite)
            .unwrap();
        v.write_file(
            "/workspace/subdir/a.txt",
            b"",
            Permission::ReadWrite,
        )
        .unwrap();
        v.write_file(
            "/workspace/subdir/b.txt",
            b"",
            Permission::ReadWrite,
        )
        .unwrap();
    }

    let result = expand_glob(&vfs.borrow().snapshot(), "/workspace", "subdir/*.txt");
    assert_eq!(result, vec!["subdir/a.txt", "subdir/b.txt"]);
}

#[test]
fn expand_question_mark() {
    let vfs = Rc::new(RefCell::new(Vfs::new()));
    {
        let mut v = vfs.borrow_mut();
        v.write_file("/workspace/f1.txt", b"", Permission::ReadWrite)
            .unwrap();
        v.write_file("/workspace/f2.txt", b"", Permission::ReadWrite)
            .unwrap();
        v.write_file("/workspace/f10.txt", b"", Permission::ReadWrite)
            .unwrap();
    }

    let result = expand_glob(&vfs.borrow().snapshot(), "/workspace", "f?.txt");
    assert_eq!(result, vec!["f1.txt", "f2.txt"]);
}

#[test]
fn expand_bracket() {
    let vfs = Rc::new(RefCell::new(Vfs::new()));
    {
        let mut v = vfs.borrow_mut();
        v.write_file("/workspace/a.txt", b"", Permission::ReadWrite)
            .unwrap();
        v.write_file("/workspace/b.txt", b"", Permission::ReadWrite)
            .unwrap();
        v.write_file("/workspace/c.txt", b"", Permission::ReadWrite)
            .unwrap();
        v.write_file("/workspace/d.txt", b"", Permission::ReadWrite)
            .unwrap();
    }

    let result = expand_glob(&vfs.borrow().snapshot(), "/workspace", "[ab].txt");
    assert_eq!(result, vec!["a.txt", "b.txt"]);
}

// Directory glob expansion tests

#[test]
fn expand_dir_glob_star() {
    // Test /workspace/*/file.txt pattern
    let vfs = Rc::new(RefCell::new(Vfs::new()));
    {
        let mut v = vfs.borrow_mut();
        // Create directories
        v.create_dir_all("/workspace/dir1", Permission::ReadWrite)
            .unwrap();
        v.create_dir_all("/workspace/dir2", Permission::ReadWrite)
            .unwrap();
        v.create_dir_all("/workspace/other", Permission::ReadWrite)
            .unwrap();
        // Create files in directories
        v.write_file(
            "/workspace/dir1/file.txt",
            b"",
            Permission::ReadWrite,
        )
        .unwrap();
        v.write_file(
            "/workspace/dir2/file.txt",
            b"",
            Permission::ReadWrite,
        )
        .unwrap();
        v.write_file(
            "/workspace/other/other.txt",
            b"",
            Permission::ReadWrite,
        )
        .unwrap();
    }

    let result = expand_glob(&vfs.borrow().snapshot(), "/workspace", "/workspace/*/file.txt");
    assert_eq!(
        result,
        vec!["/workspace/dir1/file.txt", "/workspace/dir2/file.txt"]
    );
}

#[test]
fn expand_dir_glob_pattern() {
    // Test /workspace/dir*/file.txt pattern
    let vfs = Rc::new(RefCell::new(Vfs::new()));
    {
        let mut v = vfs.borrow_mut();
        v.create_dir_all("/workspace/dir1", Permission::ReadWrite)
            .unwrap();
        v.create_dir_all("/workspace/dir2", Permission::ReadWrite)
            .unwrap();
        v.create_dir_all("/workspace/other", Permission::ReadWrite)
            .unwrap();
        v.write_file(
            "/workspace/dir1/file.txt",
            b"",
            Permission::ReadWrite,
        )
        .unwrap();
        v.write_file(
            "/workspace/dir2/file.txt",
            b"",
            Permission::ReadWrite,
        )
        .unwrap();
        v.write_file(
            "/workspace/other/file.txt",
            b"",
            Permission::ReadWrite,
        )
        .unwrap();
    }

    let result = expand_glob(&vfs.borrow().snapshot(), "/workspace", "/workspace/dir*/file.txt");
    assert_eq!(
        result,
        vec!["/workspace/dir1/file.txt", "/workspace/dir2/file.txt"]
    );
}

#[test]
fn expand_dir_glob_relative() {
    // Test relative dir/*/file.txt pattern
    let vfs = Rc::new(RefCell::new(Vfs::new()));
    {
        let mut v = vfs.borrow_mut();
        v.create_dir_all("/workspace/src/a", Permission::ReadWrite)
            .unwrap();
        v.create_dir_all("/workspace/src/b", Permission::ReadWrite)
            .unwrap();
        v.write_file(
            "/workspace/src/a/lib.rs",
            b"",
            Permission::ReadWrite,
        )
        .unwrap();
        v.write_file(
            "/workspace/src/b/lib.rs",
            b"",
            Permission::ReadWrite,
        )
        .unwrap();
    }

    let result = expand_glob(&vfs.borrow().snapshot(), "/workspace", "src/*/lib.rs");
    assert_eq!(result, vec!["src/a/lib.rs", "src/b/lib.rs"]);
}

#[test]
fn expand_dir_glob_multiple_levels() {
    // Test /foo/*/bar/*.txt (multiple glob segments)
    let vfs = Rc::new(RefCell::new(Vfs::new()));
    {
        let mut v = vfs.borrow_mut();
        v.create_dir_all("/workspace/a/sub1", Permission::ReadWrite)
            .unwrap();
        v.create_dir_all("/workspace/a/sub2", Permission::ReadWrite)
            .unwrap();
        v.create_dir_all("/workspace/b/sub1", Permission::ReadWrite)
            .unwrap();
        v.write_file(
            "/workspace/a/sub1/file.txt",
            b"",
            Permission::ReadWrite,
        )
        .unwrap();
        v.write_file(
            "/workspace/a/sub2/file.txt",
            b"",
            Permission::ReadWrite,
        )
        .unwrap();
        v.write_file(
            "/workspace/b/sub1/file.txt",
            b"",
            Permission::ReadWrite,
        )
        .unwrap();
    }

    let result = expand_glob(&vfs.borrow().snapshot(), "/workspace", "/workspace/*/sub*/*.txt");
    assert_eq!(
        result,
        vec![
            "/workspace/a/sub1/file.txt",
            "/workspace/a/sub2/file.txt",
            "/workspace/b/sub1/file.txt"
        ]
    );
}

#[test]
fn expand_dir_glob_no_matches() {
    // No matches should return original pattern
    let vfs = Rc::new(RefCell::new(Vfs::new()));
    {
        let mut v = vfs.borrow_mut();
        v.create_dir_all("/workspace/other", Permission::ReadWrite)
            .unwrap();
    }

    let result = expand_glob(&vfs.borrow().snapshot(), "/workspace", "/workspace/*/missing.txt");
    assert_eq!(result, vec!["/workspace/*/missing.txt"]);
}

#[test]
fn a_question_mark_matches_one_character() {
    assert!(glob_match("?", "\u{e9}"));
    assert!(!glob_match("??", "\u{e9}"));
    assert!(glob_match("a?c", "a\u{20ac}c"));
    assert!(glob_match("[\u{e0}-\u{ea}]", "\u{e9}"));
    assert!(!glob_match("[!\u{e9}]", "\u{e9}"));
    assert!(glob_match("[^a]", "\u{1f600}"));
}

#[test]
fn a_negation_sign_flips_a_bracket() {
    for ch in ["a", "b", "m", "]", "-", "\u{e9}"] {
        for items in ["abc", "a-k", "]x", "-z"] {
            let plain = glob_match(&format!("[{items}]"), ch);
            assert_eq!(glob_match(&format!("[!{items}]"), ch), !plain);
            assert_eq!(glob_match(&format!("[^{items}]"), ch), !plain);
        }
    }
}

#[test]
fn a_negation_sign_moves_the_end_of_a_bracket() {
    let chars = |s: &str| s.chars().collect::<Vec<char>>();
    for ch in ['a', 'm', ']', '\u{e9}'] {
        let (matched, end) = match_bracket(&chars("[]a-k]x"), 0, ch).unwrap();
        assert_eq!(end, 6);
        assert_eq!(match_bracket(&chars("[!]a-k]x"), 0, ch), Some((!matched, 7)));
        assert_eq!(match_bracket(&chars("[^]a-k]x"), 0, ch), Some((!matched, 7)));
    }
    assert_eq!(match_bracket(&chars("[abc"), 0, 'a'), None);
    assert_eq!(match_bracket(&chars("abc]"), 0, 'a'), None);
    assert_eq!(match_bracket(&chars("x[a]"), 1, 'a'), Some((true, 4)));
    assert_eq!(match_bracket(&[], 0, 'a'), None);
}

#[test]
fn an_escaped_character_stands_for_itself() {
    assert!(glob_match("\\*", "*"));
    assert!(!glob_match("\\*", "\\abc"));
    assert!(!glob_match("\\*", "abc"));
    assert!(glob_match("a\\", "a\\"));
    assert!(glob_match("*\\?", "what?"));
}

#[test]
fn no_path_comes_twice() {
    let mut vfs = Vfs::new();
    for dir in ["/workspace/a", "/workspace/ab", "/workspace/a/b"] {
        vfs.create_dir(dir, Permission::ReadWrite).unwrap();
    }
    for file in ["/workspace/a/x", "/workspace/ab/x", "/workspace/a/b/x"] {
        vfs.write_file(file, b"", Permission::ReadWrite).unwrap();
    }
    let found = expand_glob(&vfs.snapshot(), "/workspace", "*/*");
    assert_eq!(found, ["a/b", "a/x", "ab/x"]);
    let found = expand_glob(&vfs.snapshot(), "/", "/workspace/a*/x");
    assert_eq!(found, ["/workspace/a/x", "/workspace/ab/x"]);
}
