//! I/O handles.
#![allow(dead_code)]
use std::cell::RefCell;
use std::rc::Rc;

use amla_sandbox_shell::error::{IoError, VfsError};
use amla_sandbox_shell::fs::{DirEntry, Node, Snapshot, Stat};
use amla_sandbox_shell::io_handle::{IoHandle, ReadStep, WriteStep};

/// A tree of directories and files.
struct Vfs {
    dirs: Vec<String>,
    files: Vec<(String, Vec<u8>)>,
}

#[derive(Clone, Copy)]
enum Permission {
    ReadWrite,
}

impl Vfs {
    fn new() -> Vfs {
        Vfs { dirs: vec!["/".to_string(), "/workspace".to_string()], files: Vec::new() }
    }

    fn is_dir(&self, path: &str) -> bool {
        self.dirs.iter().any(|d| d == path)
    }

    fn has(&self, path: &str) -> bool {
        self.is_dir(path) || self.files.iter().any(|(f, _)| f == path)
    }

    fn create_dir(&mut self, path: &str, _p: Permission) -> Result<(), VfsError> {
        if self.has(path) {
            return Err(VfsError::AlreadyExists(path.to_string()));
        }
        self.dirs.push(path.to_string());
        Ok(())
    }

    fn create_dir_all(&mut self, path: &str, p: Permission) -> Result<(), VfsError> {
        let mut at = String::new();
        for part in path.split('/').filter(|s| !s.is_empty()) {
            at = format!("{at}/{part}");
            if !self.is_dir(&at) {
                self.create_dir(&at, p)?;
            }
        }
        Ok(())
    }

    fn write_file(&mut self, path: &str, data: &[u8], _p: Permission) -> Result<(), VfsError> {
        let parent = match path.rfind('/') {
            Some(0) | None => "/",
            Some(i) => &path[..i],
        };
        if !self.is_dir(parent) {
            return Err(VfsError::NotFound(parent.to_string()));
        }
        self.files.retain(|(f, _)| f != path);
        self.files.push((path.to_string(), data.to_vec()));
        Ok(())
    }

    fn read_file(&self, path: &str) -> Result<Vec<u8>, VfsError> {
        match self.files.iter().find(|(f, _)| f == path) {
            Some((_, data)) => Ok(data.clone()),
            None => Err(VfsError::NotFound(path.to_string())),
        }
    }

    fn children(&self, dir: &str) -> Vec<DirEntry> {
        let prefix = if dir == "/" { "/".to_string() } else { format!("{dir}/") };
        let mut entries: Vec<(String, bool)> = Vec::new();
        let dirs = self.dirs.iter().map(|d| (d, true));
        let files = self.files.iter().map(|(f, _)| (f, false));
        for (path, is_dir) in dirs.chain(files) {
            if let Some(name) = path.strip_prefix(&prefix) {
                if !name.is_empty() && !name.contains('/') {
                    entries.push((name.to_string(), is_dir));
                }
            }
        }
        entries.sort();
        entries.into_iter().map(|(name, is_dir)| DirEntry { name, is_dir }).collect()
    }

    fn snapshot(&self) -> Snapshot {
        let mut s = Snapshot::new();
        for d in &self.dirs {
            s.nodes.push((d.clone(), Node::Dir(self.children(d))));
        }
        for (f, data) in &self.files {
            s.nodes.push((f.clone(), Node::File(Some(data.len() as u64))));
        }
        s
    }
}

/// A handle, the files behind it and the host's streams.
struct Handle {
    inner: IoHandle,
    vfs: Rc<RefCell<Vfs>>,
    /// What the host prints.
    printed: Vec<(u8, Vec<u8>)>,
    /// What the host answers when it is asked for input, with how much it was asked for.
    input: Vec<Vec<u8>>,
    asked: Vec<usize>,
}

fn vfs() -> Rc<RefCell<Vfs>> {
    Rc::new(RefCell::new(Vfs::new()))
}

fn over(inner: IoHandle, vfs: &Rc<RefCell<Vfs>>) -> Handle {
    Handle {
        inner,
        vfs: vfs.clone(),
        printed: Vec::new(),
        input: Vec::new(),
        asked: Vec::new(),
    }
}

fn plain(inner: IoHandle) -> Handle {
    over(inner, &vfs())
}

fn failure(e: VfsError) -> (VfsError, String) {
    let text = format!("{e:?}");
    (e, text)
}

fn open_read(vfs: &Rc<RefCell<Vfs>>, path: &str) -> Result<Handle, IoError> {
    let fs = vfs.borrow().snapshot();
    Ok(over(IoHandle::open_read(&fs, path.to_string())?, vfs))
}

fn open_write(vfs: &Rc<RefCell<Vfs>>, path: &str) -> Result<Handle, IoError> {
    let fs = vfs.borrow().snapshot();
    let inner = IoHandle::open_write(&fs, path.to_string())?;
    let created = vfs.borrow_mut().write_file(path, b"", Permission::ReadWrite);
    Ok(over(inner.opened(created.map_err(failure), 0)?, vfs))
}

fn open_append(vfs: &Rc<RefCell<Vfs>>, path: &str) -> Result<Handle, IoError> {
    let fs = vfs.borrow().snapshot();
    let (inner, missing) = IoHandle::open_append(&fs, path.to_string())?;
    let created = if missing {
        vfs.borrow_mut().write_file(path, b"", Permission::ReadWrite)
    } else {
        Ok(())
    };
    let size = vfs.borrow().read_file(path).map(|d| d.len()).unwrap_or(0);
    Ok(over(inner.opened(created.map_err(failure), size)?, vfs))
}

impl Handle {
    fn read(&mut self, buf: &mut [u8]) -> Result<usize, IoError> {
        let len = buf.len();
        let bytes = match self.inner.read(len) {
            ReadStep::Done(bytes) => bytes,
            ReadStep::Failed(e) => return Err(e),
            ReadStep::File(path) => {
                let contents = self.vfs.borrow().read_file(&path).map_err(failure);
                self.inner.read_contents(len, contents)?
            }
            ReadStep::Input(n) => {
                self.asked.push(n);
                let answer = self.input.remove(0);
                self.inner.read_input(len, Ok(answer))?
            }
            ReadStep::Pipe => panic!("a pipe"),
        };
        buf[..bytes.len()].copy_from_slice(&bytes);
        Ok(bytes.len())
    }

    fn write(&mut self, buf: &[u8]) -> Result<usize, IoError> {
        match self.inner.write(buf) {
            WriteStep::Done(n) => Ok(n),
            WriteStep::Failed(e) => Err(e),
            WriteStep::Append(path) => {
                let mut data = self.vfs.borrow().read_file(&path).unwrap();
                data.extend_from_slice(buf);
                let size = data.len();
                let written = self.vfs.borrow_mut().write_file(&path, &data, Permission::ReadWrite);
                self.inner.write_appended(buf.len(), written.map(|_| size).map_err(failure))
            }
            WriteStep::Replace(path) => {
                let held = self.vfs.borrow().read_file(&path).unwrap_or_default();
                let data = self.inner.new_contents(held, buf);
                let written = self.vfs.borrow_mut().write_file(&path, &data, Permission::ReadWrite);
                self.inner.write_replaced(buf.len(), written.map_err(failure))
            }
            WriteStep::Print => {
                let stream = match &self.inner {
                    IoHandle::HostStream { stream, .. } => *stream,
                    other => panic!("{other:?}"),
                };
                while let Some(block) = self.inner.next_block() {
                    self.printed.push((stream, block));
                }
                Ok(buf.len())
            }
            WriteStep::Pipe => panic!("a pipe"),
        }
    }
}

// Buffer handle tests

#[test]
fn buffer_read_write() {
    let mut handle = plain(IoHandle::buffer());
    handle.write(b"hello").unwrap();
    handle.write(b" world").unwrap();

    let content = handle.inner.get_buffer().unwrap();
    assert_eq!(content, b"hello world");
}

#[test]
fn buffer_read_sequential() {
    let mut handle = plain(IoHandle::buffer());
    handle.write(b"hello world").unwrap();

    // Reset position for reading (create new handle with same buffer)
    let IoHandle::Buffer { data, .. } = handle.inner else {
        panic!("expected buffer");
    };
    let mut read_handle = plain(IoHandle::Buffer { data, pos: 0 });

    let mut buf = [0u8; 5];
    let n = read_handle.read(&mut buf).unwrap();
    assert_eq!(n, 5);
    assert_eq!(&buf, b"hello");

    let n = read_handle.read(&mut buf).unwrap();
    assert_eq!(n, 5);
    assert_eq!(&buf, b" worl");

    let n = read_handle.read(&mut buf).unwrap();
    assert_eq!(n, 1);
    assert_eq!(&buf[..n], b"d");

    // EOF
    let n = read_handle.read(&mut buf).unwrap();
    assert_eq!(n, 0);
}

#[test]
fn buffer_empty_read() {
    let mut handle = plain(IoHandle::buffer());
    let mut buf = [0u8; 10];
    let n = handle.read(&mut buf).unwrap();
    assert_eq!(n, 0); // Empty buffer = EOF
}

#[test]
fn buffer_get_buffer() {
    let mut handle = plain(IoHandle::buffer());
    handle.write(b"test data").unwrap();
    let content = handle.inner.get_buffer().unwrap();
    assert_eq!(content, b"test data");
}

#[test]
fn buffer_get_buffer_empty() {
    let handle = IoHandle::buffer();
    let content = handle.get_buffer().unwrap();
    assert!(content.is_empty());
}

// Null device tests

#[test]
fn null_device() {
    let mut handle = plain(IoHandle::null());

    // Writes succeed but are discarded
    assert_eq!(handle.write(b"test").unwrap(), 4);

    // Reads return EOF
    let mut buf = [0u8; 10];
    assert_eq!(handle.read(&mut buf).unwrap(), 0);
}

#[test]
fn null_write_all() {
    let mut handle = plain(IoHandle::null());
    assert_eq!(handle.write(b"large data chunk").unwrap(), 16);
    // Succeeds, data is discarded
}

#[test]
fn null_get_buffer() {
    let handle = IoHandle::null();
    assert!(handle.get_buffer().is_none());
}

// File handle tests

#[test]
fn file_read() {
    let vfs = vfs();
    vfs.borrow_mut()
        .write_file("/workspace/test.txt", b"hello", Permission::ReadWrite)
        .unwrap();

    let mut handle = open_read(&vfs, "/workspace/test.txt").unwrap();

    let mut buf = [0u8; 10];
    let n = handle.read(&mut buf).unwrap();
    assert_eq!(n, 5);
    assert_eq!(&buf[..n], b"hello");

    // EOF
    let n = handle.read(&mut buf).unwrap();
    assert_eq!(n, 0);
}

#[test]
fn file_write() {
    let vfs = vfs();
    let mut handle = open_write(&vfs, "/workspace/out.txt").unwrap();
    handle.write(b"hello").unwrap();
    handle.write(b" world").unwrap();

    // Verify file contents
    let content = vfs.borrow().read_file("/workspace/out.txt").unwrap();
    assert_eq!(content, b"hello world");
}

#[test]
fn file_write_truncates() {
    let vfs = vfs();
    vfs.borrow_mut()
        .write_file("/workspace/test.txt", b"old content here", Permission::ReadWrite)
        .unwrap();

    let mut handle = open_write(&vfs, "/workspace/test.txt").unwrap();
    handle.write(b"new").unwrap();

    let content = vfs.borrow().read_file("/workspace/test.txt").unwrap();
    assert_eq!(content, b"new");
}

#[test]
fn file_append() {
    let vfs = vfs();
    vfs.borrow_mut()
        .write_file("/workspace/test.txt", b"hello", Permission::ReadWrite)
        .unwrap();

    let mut handle = open_append(&vfs, "/workspace/test.txt").unwrap();
    handle.write(b" world").unwrap();

    let content = vfs.borrow().read_file("/workspace/test.txt").unwrap();
    assert_eq!(content, b"hello world");
}

#[test]
fn file_append_creates() {
    let vfs = vfs();
    let mut handle = open_append(&vfs, "/workspace/new.txt").unwrap();
    handle.write(b"content").unwrap();

    let content = vfs.borrow().read_file("/workspace/new.txt").unwrap();
    assert_eq!(content, b"content");
}

#[test]
fn file_append_to_append_only() {
    // Append mode never replaces what a file holds.
    let vfs = vfs();
    vfs.borrow_mut().create_dir("/log", Permission::ReadWrite).unwrap();
    vfs.borrow_mut()
        .write_file("/log/actions.jsonl", b"", Permission::ReadWrite)
        .unwrap();
    let mut handle = open_append(&vfs, "/log/actions.jsonl").unwrap();
    assert!(matches!(handle.inner.write(b"x"), WriteStep::Append(_)));
    handle.write(b"line1\n").unwrap();
    handle.write(b"line2\n").unwrap();

    let content = vfs.borrow().read_file("/log/actions.jsonl").unwrap();
    assert_eq!(content, b"line1\nline2\n");
}

#[test]
fn file_read_not_found() {
    let result = open_read(&vfs(), "/workspace/nonexistent.txt");
    assert!(matches!(result, Err(IoError::NotFound(_))));
}

#[test]
fn file_read_is_directory() {
    let vfs = vfs();
    vfs.borrow_mut()
        .create_dir("/workspace/dir", Permission::ReadWrite)
        .unwrap();

    let result = open_read(&vfs, "/workspace/dir");
    assert!(matches!(result, Err(IoError::IsDir(_))));
}

#[test]
fn file_write_is_directory() {
    let vfs = vfs();
    vfs.borrow_mut()
        .create_dir("/workspace/dir", Permission::ReadWrite)
        .unwrap();

    let result = open_write(&vfs, "/workspace/dir");
    assert!(matches!(result, Err(IoError::IsDir(_))));
}

#[test]
fn file_append_is_directory() {
    let vfs = vfs();
    vfs.borrow_mut()
        .create_dir("/workspace/dir", Permission::ReadWrite)
        .unwrap();

    let result = open_append(&vfs, "/workspace/dir");
    assert!(matches!(result, Err(IoError::IsDir(_))));
}

#[test]
fn file_read_permission_denied() {
    let vfs = vfs();
    vfs.borrow_mut()
        .write_file("/workspace/test.txt", b"content", Permission::ReadWrite)
        .unwrap();

    // Open for write only
    let mut handle = open_write(&vfs, "/workspace/test.txt").unwrap();

    // Try to read
    let mut buf = [0u8; 10];
    let result = handle.read(&mut buf);
    assert!(matches!(result, Err(IoError::Permission(_))));
}

#[test]
fn file_write_permission_denied() {
    let vfs = vfs();
    vfs.borrow_mut()
        .write_file("/workspace/test.txt", b"content", Permission::ReadWrite)
        .unwrap();

    // Open for read only
    let mut handle = open_read(&vfs, "/workspace/test.txt").unwrap();

    // Try to write
    let result = handle.write(b"data");
    assert!(matches!(result, Err(IoError::Permission(_))));
}

// Pipe handle tests

#[test]
fn pipe_creation() {
    let handle = IoHandle::pipe(1024);
    assert!(handle.is_pipe());
}

#[test]
fn is_pipe() {
    assert!(IoHandle::pipe(1024).is_pipe());
    assert!(!IoHandle::buffer().is_pipe());
    assert!(!IoHandle::null().is_pipe());
}

#[test]
fn get_buffer_non_buffer() {
    let pipe = IoHandle::pipe(1024);
    assert!(pipe.get_buffer().is_none());

    let vfs = vfs();
    vfs.borrow_mut()
        .write_file("/workspace/test.txt", b"x", Permission::ReadWrite)
        .unwrap();
    let file = open_read(&vfs, "/workspace/test.txt").unwrap();
    assert!(file.inner.get_buffer().is_none());
}

// Synchronous write tests

#[test]
fn write_sync_buffer() {
    let mut handle = IoHandle::buffer();
    handle.write_sync(b"hello").unwrap();
    handle.write_sync(b" world").unwrap();

    let content = handle.get_buffer().unwrap();
    assert_eq!(content, b"hello world");
}

#[test]
fn write_sync_null() {
    let mut handle = IoHandle::null();
    let n = handle.write_sync(b"discarded").unwrap();
    assert_eq!(n, 9);
}

#[test]
fn write_sync_pipe_error() {
    let mut handle = IoHandle::pipe(1024);
    let result = handle.write_sync(b"data");
    assert!(result.is_err());
}

#[test]
fn write_sync_file_error() {
    let vfs = vfs();
    vfs.borrow_mut()
        .write_file("/workspace/test.txt", b"x", Permission::ReadWrite)
        .unwrap();
    let mut handle = open_write(&vfs, "/workspace/test.txt").unwrap();

    let result = handle.inner.write_sync(b"data");
    assert!(result.is_err());
}

#[test]
fn write_all_sync() {
    let mut handle = IoHandle::buffer();
    handle.write_all_sync(b"complete data").unwrap();

    let content = handle.get_buffer().unwrap();
    assert_eq!(content, b"complete data");
}

#[test]
fn println_sync() {
    let mut handle = IoHandle::buffer();
    handle.println_sync("line 1").unwrap();
    handle.println_sync("line 2").unwrap();

    let content = handle.get_buffer().unwrap();
    assert_eq!(content, b"line 1\nline 2\n");
}

// Debug formatting tests

#[test]
fn debug_pipe() {
    let handle = IoHandle::pipe(1024);
    let debug = handle.description();
    assert!(debug.contains("Pipe"));
}

#[test]
fn debug_buffer() {
    let handle = IoHandle::buffer();
    let debug = handle.description();
    assert!(debug.contains("Buffer"));
}

#[test]
fn debug_null() {
    let handle = IoHandle::null();
    let debug = handle.description();
    assert!(debug.contains("Null"));
}

#[test]
fn debug_file() {
    let vfs = vfs();
    vfs.borrow_mut()
        .write_file("/workspace/test.txt", b"x", Permission::ReadWrite)
        .unwrap();
    let handle = open_read(&vfs, "/workspace/test.txt").unwrap().inner;
    let debug = handle.description();
    assert!(debug.contains("File"));
    assert!(debug.contains("test.txt"));
}

// IoError tests

#[test]
fn io_error_display() {
    let errors = [
        (IoError::NotFound("/path".into()), "no such file"),
        (IoError::IsDir("/path".into()), "is a directory"),
        (IoError::NotDir("/path".into()), "not a directory"),
        (IoError::Permission("/path".into()), "permission denied"),
        (IoError::Exists("/path".into()), "file exists"),
        (IoError::InvalidSeek, "invalid seek"),
        (IoError::Io("test error".into()), "I/O error"),
    ];

    for (error, expected_fragment) in errors {
        let display = error.message();
        assert!(
            display.contains(expected_fragment),
            "expected '{expected_fragment}' in '{display}'"
        );
    }
}

// Stat and DirEntry tests

#[test]
fn stat_fields() {
    let stat = Stat {
        size: 1024,
        is_dir: false,
        is_file: true,
    };
    assert_eq!(stat.size, 1024);
    assert!(!stat.is_dir);
    assert!(stat.is_file);
}

#[test]
fn dir_entry_fields() {
    let entry = DirEntry {
        name: "file.txt".into(),
        is_dir: false,
    };
    assert_eq!(entry.name, "file.txt");
    assert!(!entry.is_dir);
}

// write_all tests

#[test]
fn write_all_buffer() {
    let mut handle = plain(IoHandle::buffer());
    handle.write(b"complete write").unwrap();

    let content = handle.inner.get_buffer().unwrap();
    assert_eq!(content, b"complete write");
}

#[test]
fn write_all_null() {
    let mut handle = plain(IoHandle::null());
    assert_eq!(handle.write(b"discarded").unwrap(), 9);
}

// HostStream tests

#[test]
fn host_stdout_buffers_until_newline_or_max_size() {
    let mut handle = plain(IoHandle::host_stdout(256));

    // Write without newline - should buffer
    handle.write(b"hello").unwrap();
    assert_eq!(handle.inner.get_buffer().unwrap(), b"hello");

    // Nothing should have been printed (no newline, under max size)
    assert!(handle.printed.is_empty());
}

#[test]
fn host_stdout_flushes_at_newline() {
    let mut handle = plain(IoHandle::host_stdout(256));
    handle.write(b"hello\n").unwrap();
    assert_eq!(handle.printed, vec![(1, b"hello\n".to_vec())]);
}

#[test]
fn host_stdout_flushes_at_max_size() {
    // Use small max size to test fallback
    let mut handle = plain(IoHandle::host_stdout(5));

    // Write exactly 5 bytes without newline - should trigger flush at max size
    handle.write(b"12345").unwrap();
    assert_eq!(handle.printed, vec![(1, b"12345".to_vec())]);
}

#[test]
fn host_stdout_flushes_multiple_lines() {
    let mut handle = plain(IoHandle::host_stdout(256));

    // Write multiple lines - should trigger multiple flushes
    handle.write(b"line1\nline2\n").unwrap();
    assert_eq!(handle.printed, vec![(1, b"line1\n".to_vec()), (1, b"line2\n".to_vec())]);
}

#[test]
fn host_stdout_flush_drains_buffer() {
    let mut handle = plain(IoHandle::host_stdout(256));

    // Write some data without newline
    handle.write(b"partial data").unwrap();
    assert!(handle.printed.is_empty());

    // Now flush
    assert_eq!(handle.inner.flush(), Some((1, b"partial data".to_vec())));
    assert_eq!(handle.inner.flush(), None);
}

#[test]
fn host_stderr_uses_stream_2() {
    let mut handle = plain(IoHandle::host_stderr(5));
    handle.write(b"error").unwrap();
    assert_eq!(handle.printed, vec![(2, b"error".to_vec())]);
}

#[test]
fn host_stdin_reads_from_host() {
    let mut handle = plain(IoHandle::host_stdin());
    handle.input.push(b"user input".to_vec());

    let mut buf = [0u8; 10];
    let n = handle.read(&mut buf).unwrap();
    assert_eq!(handle.asked, vec![10]);
    assert_eq!(&buf[..n], b"user input");
}

#[test]
fn host_stdin_eof() {
    let mut handle = plain(IoHandle::host_stdin());
    handle.input.push(vec![]);

    let mut buf = [0u8; 10];
    assert_eq!(handle.read(&mut buf).unwrap(), 0);
}

#[test]
fn host_stdin_keeps_what_was_not_read() {
    let mut handle = plain(IoHandle::host_stdin());
    handle.input.push(b"more than asked".to_vec());

    let mut buf = [0u8; 4];
    assert_eq!(handle.read(&mut buf).unwrap(), 4);
    assert_eq!(&buf, b"more");
    let mut rest = [0u8; 20];
    let n = handle.read(&mut rest).unwrap();
    assert_eq!(&rest[..n], b" than asked");
    assert_eq!(handle.asked, vec![4]);
}

#[test]
fn host_stdout_cannot_read() {
    let mut handle = plain(IoHandle::host_stdout(100));
    let mut buf = [0u8; 10];
    assert!(handle.read(&mut buf).is_err(), "reading from stdout should fail");
}

#[test]
fn host_stdin_cannot_write() {
    let mut handle = plain(IoHandle::host_stdin());
    assert!(handle.write(b"test").is_err(), "writing to stdin should fail");
}

#[test]
fn host_stream_debug() {
    let stdin = IoHandle::host_stdin();
    let stdout = IoHandle::host_stdout(100);
    let stderr = IoHandle::host_stderr(100);

    assert_eq!(stdin.description(), "IoHandle::HostStream(stdin)");
    assert_eq!(stdout.description(), "IoHandle::HostStream(stdout)");
    assert_eq!(stderr.description(), "IoHandle::HostStream(stderr)");
}

#[test]
fn take_buffered_output_extracts_data() {
    // Output that waits at exit must not be lost.
    let mut stdout = plain(IoHandle::host_stdout(256));

    // Write data without newline (stays buffered, no flush)
    stdout.write(b"partial output").unwrap();
    assert!(stdout.printed.is_empty(), "Data should be buffered, not submitted");

    // Extract buffered output synchronously
    let result = stdout.inner.take_buffered_output();
    assert!(result.is_some(), "Should have buffered data");
    let (stream, data) = result.unwrap();
    assert_eq!(stream, 1, "Should be stdout stream");
    assert_eq!(data, b"partial output", "Should contain all buffered data");

    // Buffer should now be empty
    assert!(
        stdout.inner.take_buffered_output().is_none(),
        "Buffer should be empty after take"
    );
}

#[test]
fn take_buffered_output_returns_none_for_stdin() {
    let mut stdin = IoHandle::host_stdin();

    // stdin has no output buffer
    assert!(
        stdin.take_buffered_output().is_none(),
        "stdin should not have output buffer"
    );
}

#[test]
fn take_buffered_output_returns_none_for_non_host_stream() {
    let mut pipe = IoHandle::pipe(100);
    let mut buffer = IoHandle::buffer();
    let mut null = IoHandle::Null;

    assert!(pipe.take_buffered_output().is_none());
    assert!(buffer.take_buffered_output().is_none());
    assert!(null.take_buffered_output().is_none());
}

#[test]
fn is_reader_blocked_non_pipe_variants() {
    // Buffer - never blocked
    let buffer = IoHandle::buffer();
    assert!(!buffer.is_reader_blocked(true));

    // Null - never blocked
    let null = IoHandle::null();
    assert!(!null.is_reader_blocked(true));

    // File - never blocked
    let vfs = vfs();
    vfs.borrow_mut()
        .write_file("/workspace/test.txt", b"content", Permission::ReadWrite)
        .unwrap();
    let file = open_read(&vfs, "/workspace/test.txt").unwrap();
    assert!(!file.inner.is_reader_blocked(true));

    // Pipe - as the pipe says
    assert!(IoHandle::pipe(1).is_reader_blocked(true));
    assert!(!IoHandle::pipe(1).is_reader_blocked(false));
}

// Laws

#[test]
fn what_is_written_is_read_back_and_the_rest_stays() {
    let vfs = vfs();
    vfs.borrow_mut()
        .write_file("/workspace/f", b"", Permission::ReadWrite)
        .unwrap();
    let mut out = open_write(&vfs, "/workspace/f").unwrap();
    out.write(b"abc").unwrap();
    out.write(b"def").unwrap();
    let mut handle = open_read(&vfs, "/workspace/f").unwrap();
    let mut buf = [0u8; 16];
    let n = handle.read(&mut buf).unwrap();
    assert_eq!(&buf[..n], b"abcdef");

    let mut middle = IoHandle::Buffer { data: b"0123456789".to_vec(), pos: 3 };
    middle.write_sync(b"xy").unwrap();
    assert_eq!(middle.get_buffer().unwrap(), b"012xy56789");
}

#[test]
fn a_write_behind_the_end_fills_with_zeros() {
    let mut handle = IoHandle::Buffer { data: b"ab".to_vec(), pos: 4 };
    handle.write_sync(b"c").unwrap();
    assert_eq!(handle.get_buffer().unwrap(), b"ab\0\0c");
}

#[test]
fn printed_blocks_and_what_waits_make_up_all_output() {
    let mut handle = plain(IoHandle::host_stdout(4));
    let mut all: Vec<u8> = Vec::new();
    for chunk in [&b"a\nbcd"[..], b"efghij", b"k\n\nlm"] {
        handle.write(chunk).unwrap();
        all.extend_from_slice(chunk);
    }
    let mut seen: Vec<u8> = handle.printed.iter().flat_map(|(_, b)| b.clone()).collect();
    seen.extend_from_slice(&handle.inner.get_buffer().unwrap());
    assert_eq!(seen, all);
}

#[test]
fn pushing_is_for_pipes() {
    assert_eq!(IoHandle::pipe(8).push(b"abc", 2).unwrap(), 2);
    assert_eq!(IoHandle::null().push(b"abc", 0).unwrap(), 3);
    assert!(IoHandle::buffer().push(b"abc", 3).is_err());
}
