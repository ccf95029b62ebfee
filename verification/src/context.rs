//! What a command runs in.
use vstd::prelude::*;
use crate::args::{parser_from_argv, parser_state, ParserState};
use crate::env::Environment;
use crate::error::{labelled, IoError};
use crate::fs::{DirEntry, Node, Snapshot, Stat};
use crate::io_handle::IoHandle;
use crate::path::{resolve, resolved};
use crate::text::{str_eq, strs};

verus! {

/// Execution context for a command.
pub struct CmdContext {
    /// Command arguments (argv\[0\] is command name).
    pub argv: Vec<String>,
    /// Standard input.
    pub stdin: IoHandle,
    /// Standard output.
    pub stdout: IoHandle,
    /// Standard error.
    pub stderr: IoHandle,
    /// Current working directory.
    pub cwd: String,
    /// Environment variables.
    pub env: Environment,
    /// The filesystem.
    pub fs: Snapshot,
}

/// Where the bytes of a file come from.
#[derive(Debug)]
pub enum Source {
    /// The host has them, under this path.
    Host(String),
    /// The filesystem has them.
    File(IoHandle),
    /// They come from stdin.
    Stdin,
}

/// Where the bytes of a whole file are read from.
#[derive(Debug)]
pub enum Whole {
    /// The host has them, under this path.
    Host(String),
    /// The filesystem has them, under this path.
    File(String),
}

impl CmdContext {
    /// Create a new command context.
    pub fn new(
        argv: Vec<String>,
        stdin: IoHandle,
        stdout: IoHandle,
        stderr: IoHandle,
        cwd: String,
        env: Environment,
        fs: Snapshot,
    ) -> (r: Self)
        ensures
            r.argv == argv,
            r.stdin == stdin,
            r.stdout == stdout,
            r.stderr == stderr,
            r.cwd == cwd,
            r.env == env,
            r.fs == fs,
    {
        CmdContext { argv, stdin, stdout, stderr, cwd, env, fs }
    }

    /// Get the command name.
    pub fn command_name(&self) -> (r: &str)
        ensures
            r@ == if self.argv@.len() > 0 {
                self.argv@[0]@
            } else {
                Seq::empty()
            },
    {
        if self.argv.len() > 0 {
            self.argv[0].as_str()
        } else {
            proof {
                reveal_strlit("");
                assert(""@ =~= Seq::<char>::empty());
            }
            ""
        }
    }

    /// Get arguments (excluding command name).
    pub fn args(&self) -> (r: &[String])
        ensures
            r@ == if self.argv@.len() > 0 {
                self.argv@.skip(1)
            } else {
                Seq::empty()
            },
    {
        if self.argv.len() > 0 {
            vstd::slice::slice_subrange(self.argv.as_slice(), 1, self.argv.len())
        } else {
            vstd::slice::slice_subrange(self.argv.as_slice(), 0, 0)
        }
    }

    /// Create a lexopt parser for the arguments, without the command name.
    pub fn arg_parser(&self) -> (r: lexopt::Parser)
        ensures
            parser_state(r) == ParserState::Plain(
                if self.argv@.len() == 0 {
                    Seq::empty()
                } else {
                    strs(self.argv@).skip(1)
                },
            ),
    {
        parser_from_argv(&self.argv)
    }

    /// Get the current working directory.
    pub fn cwd(&self) -> (r: &str)
        ensures
            r@ == self.cwd@,
    {
        self.cwd.as_str()
    }

    /// Get an environment variable.
    pub fn getenv(&self, name: &str) -> (r: Option<&str>)
        ensures
            match r {
                Some(v) => self.env@.dom().contains(name@) && v@ == self.env@[name@],
                None => !self.env@.dom().contains(name@),
            },
    {
        self.env.get(name)
    }

    /// All environment variables with their values, each once.
    pub fn env_iter(&self) -> (r: Vec<(&str, &str)>)
        ensures
            r@.len() == self.env@.dom().len(),
            forall|i: int|
                0 <= i < r@.len() ==> self.env@.contains_pair((#[trigger] r@[i]).0@, r@[i].1@),
            forall|i: int, j: int|
                0 <= i < j < r@.len() ==> (#[trigger] r@[i]).0@ != (#[trigger] r@[j]).0@,
    {
        self.env.iter()
    }

    /// Clone the environment (for creating subshells).
    pub fn env_clone(&self) -> (r: Environment)
        ensures
            r@ == self.env@,
    {
        self.env.duplicate()
    }

    /// The absolute path that a path means here.
    pub open spec fn absolute(self, path: Seq<char>) -> Seq<char> {
        resolved(self.cwd@, path)
    }

    /// Whether a path exists, in the filesystem or on the host.
    pub open spec fn has(self, path: Seq<char>) -> bool {
        self.fs.spec_exists(self.absolute(path)) || self.fs.mount(self.absolute(path)) is Some
    }

    /// Whether a path is a directory.
    pub open spec fn has_dir(self, path: Seq<char>) -> bool {
        self.fs.spec_is_dir(self.absolute(path))
    }

    /// Whether a path is a file, in the filesystem or on the host.
    pub open spec fn has_file(self, path: Seq<char>) -> bool {
        self.fs.spec_is_file(self.absolute(path)) || self.fs.mount(self.absolute(path)) is Some
    }

    /// The size of a path: none for what does not exist; zero for a directory, for a
    /// file of the host, and for a file that cannot be read.
    pub open spec fn size_of(self, path: Seq<char>) -> Option<nat> {
        if self.fs.mount(self.absolute(path)) is Some {
            Some(0)
        } else {
            match self.fs.node(self.absolute(path)) {
                None => None,
                Some(Node::File(Some(n))) => Some(n as nat),
                Some(_) => Some(0),
            }
        }
    }

    /// Resolve a path relative to the current working directory.
    pub fn resolve_path(&self, path: &str) -> (r: String)
        ensures
            r@ == self.absolute(path@),
    {
        resolve(self.cwd.as_str(), path)
    }

    /// Where the bytes of a file come from when it is opened for reading.
    pub fn open_read(&self, path: &str) -> (r: std::result::Result<Source, IoError>)
        ensures
            ({
                let p = self.absolute(path@);
                match (self.fs.mount(p), r) {
                    (Some(h), Ok(Source::Host(s))) => s@ == h,
                    (
                        None,
                        Ok(
                            Source::File(
                                IoHandle::File { path: q, pos, readable, writable, append },
                            ),
                        ),
                    ) => q@ == p && pos == 0 && readable && !writable && !append
                        && self.fs.spec_exists(p) && !self.fs.spec_is_dir(p),
                    (None, Err(IoError::NotFound(q))) => q@ == p && !self.fs.spec_exists(p),
                    (None, Err(IoError::IsDir(q))) => q@ == p && self.fs.spec_is_dir(p),
                    _ => false,
                }
            }),
    {
        let p = self.resolve_path(path);
        match self.fs.get_host_path(p.as_str()) {
            Some(h) => Ok(Source::Host(h.to_owned())),
            None => match IoHandle::open_read(&self.fs, p) {
                Ok(h) => Ok(Source::File(h)),
                Err(e) => Err(e),
            },
        }
    }

    /// Where the bytes come from: stdin where the path is "-".
    pub fn open_or_stdin(&self, path: &str) -> (r: std::result::Result<Source, IoError>)
        ensures
            path@ == "-"@ ==> r == Ok::<Source, IoError>(Source::Stdin),
            path@ != "-"@ ==> ({
                let p = self.absolute(path@);
                match (self.fs.mount(p), r) {
                    (Some(h), Ok(Source::Host(s))) => s@ == h,
                    (
                        None,
                        Ok(
                            Source::File(
                                IoHandle::File { path: q, pos, readable, writable, append },
                            ),
                        ),
                    ) => q@ == p && pos == 0 && readable && !writable && !append
                        && self.fs.spec_exists(p) && !self.fs.spec_is_dir(p),
                    (None, Err(IoError::NotFound(q))) => q@ == p && !self.fs.spec_exists(p),
                    (None, Err(IoError::IsDir(q))) => q@ == p && self.fs.spec_is_dir(p),
                    _ => false,
                }
            }),
    {
        if str_eq(path, "-") {
            Ok(Source::Stdin)
        } else {
            self.open_read(path)
        }
    }

    /// The bytes of a file of the host, as a handle that is read.
    pub fn host_opened(&self, data: std::result::Result<Vec<u8>, String>) -> (r:
        std::result::Result<IoHandle, IoError>)
        ensures
            match (data, r) {
                (Ok(bytes), Ok(IoHandle::Buffer { data: b, pos })) => b@ == bytes@ && pos == 0,
                (Err(e), Err(IoError::Io(m))) => m@ == "host read failed: "@ + e@,
                _ => false,
            },
    {
        match self.host_read(data) {
            Ok(bytes) => Ok(IoHandle::from_bytes(bytes)),
            Err(e) => Err(e),
        }
    }

    /// The bytes of a file of the host.
    pub fn host_read(&self, data: std::result::Result<Vec<u8>, String>) -> (r: std::result::Result<
        Vec<u8>,
        IoError,
    >)
        ensures
            match (data, r) {
                (Ok(bytes), Ok(b)) => b == bytes,
                (Err(e), Err(IoError::Io(m))) => m@ == "host read failed: "@ + e@,
                _ => false,
            },
    {
        match data {
            Ok(bytes) => Ok(bytes),
            Err(e) => Err(IoError::Io(labelled("host read failed: ", e.as_str()))),
        }
    }

    /// Open a file for writing (creates/truncates).
    pub fn open_write(&self, path: &str) -> (r: std::result::Result<IoHandle, IoError>)
        ensures
            match r {
                Ok(IoHandle::File { path: p, pos, readable, writable, append }) => p@
                    == self.absolute(path@) && pos == 0 && !readable && writable && !append
                    && !self.has_dir(path@),
                Err(IoError::IsDir(p)) => p@ == self.absolute(path@) && self.has_dir(path@),
                _ => false,
            },
    {
        let p = self.resolve_path(path);
        IoHandle::open_write(&self.fs, p)
    }

    /// Open a file for appending. The second value says whether the file has to be
    /// created.
    pub fn open_append(&self, path: &str) -> (r: std::result::Result<(IoHandle, bool), IoError>)
        ensures
            match r {
                Ok((IoHandle::File { path: p, pos, readable, writable, append }, missing)) => p@
                    == self.absolute(path@) && pos == 0 && !readable && writable && append
                    && !self.has_dir(path@) && missing == !self.fs.spec_exists(
                    self.absolute(path@),
                ),
                Err(IoError::IsDir(p)) => p@ == self.absolute(path@) && self.has_dir(path@),
                _ => false,
            },
    {
        let p = self.resolve_path(path);
        IoHandle::open_append(&self.fs, p)
    }

    /// Where the bytes of a whole file are read from.
    pub fn read_file(&self, path: &str) -> (r: Whole)
        ensures
            match (r, self.fs.mount(self.absolute(path@))) {
                (Whole::Host(p), Some(h)) => p@ == h,
                (Whole::File(p), None) => p@ == self.absolute(path@),
                _ => false,
            },
    {
        let p = self.resolve_path(path);
        match self.fs.get_host_path(p.as_str()) {
            Some(h) => Whole::Host(h.to_owned()),
            None => Whole::File(p),
        }
    }

    /// List directory contents.
    pub fn list_dir(&self, path: &str) -> (r: std::result::Result<&Vec<DirEntry>, IoError>)
        ensures
            ({
                let p = self.absolute(path@);
                match self.fs.node(p) {
                    None => r matches Err(IoError::NotFound(q)) && q@ == p,
                    Some(Node::File(_)) => r matches Err(IoError::NotDir(q)) && q@ == p,
                    Some(Node::Dir(entries)) => r matches Ok(v) && v@ == entries@,
                    Some(Node::Closed(e, m)) => r == Err::<&Vec<DirEntry>, IoError>(IoError::Vfs(e, m)),
                }
            }),
    {
        let p = self.resolve_path(path);
        match self.fs.get(p.as_str()) {
            None => Err(IoError::NotFound(p)),
            Some(Node::File(_)) => Err(IoError::NotDir(p)),
            Some(Node::Dir(entries)) => Ok(entries),
            Some(Node::Closed(e, m)) => Err(IoError::Vfs(e.clone(), m.clone())),
        }
    }

    /// Get file status. The size of a file of the host is reported as 0.
    pub fn stat(&self, path: &str) -> (r: std::result::Result<Stat, IoError>)
        ensures
            match (self.size_of(path@), r) {
                (Some(n), Ok(s)) => s.size == n && (if self.fs.mount(self.absolute(path@)) is Some {
                    s.is_file && !s.is_dir
                } else {
                    s.is_file == self.fs.spec_is_file(self.absolute(path@)) && s.is_dir
                        == self.fs.spec_is_dir(self.absolute(path@))
                }),
                (None, Err(IoError::NotFound(q))) => q@ == self.absolute(path@),
                _ => false,
            },
    {
        let p = self.resolve_path(path);
        if self.fs.is_mounted(p.as_str()) {
            return Ok(Stat { size: 0, is_dir: false, is_file: true });
        }
        match self.fs.get(p.as_str()) {
            None => Err(IoError::NotFound(p)),
            Some(Node::File(Some(n))) => Ok(Stat { size: *n, is_dir: false, is_file: true }),
            Some(Node::File(None)) => Ok(Stat { size: 0, is_dir: false, is_file: true }),
            Some(_) => Ok(Stat { size: 0, is_dir: true, is_file: false }),
        }
    }

    /// Check if path exists, in the filesystem or on the host.
    pub fn path_exists(&self, path: &str) -> (r: bool)
        ensures
            r == self.has(path@),
    {
        let p = self.resolve_path(path);
        self.fs.path_exists(p.as_str()) || self.fs.is_mounted(p.as_str())
    }

    /// Check if path is a directory.
    pub fn is_dir(&self, path: &str) -> (r: bool)
        ensures
            r == self.has_dir(path@),
    {
        let p = self.resolve_path(path);
        self.fs.is_dir(p.as_str())
    }

    /// Check if path is a file, in the filesystem or on the host.
    pub fn is_file(&self, path: &str) -> (r: bool)
        ensures
            r == self.has_file(path@),
    {
        let p = self.resolve_path(path);
        self.fs.is_file(p.as_str()) || self.fs.is_mounted(p.as_str())
    }
}

/// A path that stands for a file of the host is a file of no known size; any other path is
/// what the filesystem holds under it, from the working directory.
pub proof fn law_paths_of_a_command(c: CmdContext, path: Seq<char>)
    ensures
        ({
            let full = resolved(c.cwd@, path);
            let mounted = c.fs.mount(full) is Some;
            &&& mounted ==> c.has(path) && c.has_file(path) && c.size_of(path) == Some(0nat)
            &&& !mounted ==> c.has(path) == (c.fs.node(full) is Some)
            &&& !mounted ==> c.has_file(path) == c.fs.spec_is_file(full)
            &&& c.has_dir(path) == c.fs.spec_is_dir(full)
            &&& !mounted ==> (c.fs.node(full) matches Some(Node::File(Some(n))) ==> c.size_of(path)
                == Some(n as nat))
            &&& !mounted && c.fs.node(full) is None ==> c.size_of(path) is None
            &&& !mounted && c.has_dir(path) ==> c.size_of(path) == Some(0nat)
        }),
{
}

/// A path means the same to a command as the absolute path that it stands for.
pub proof fn law_absolute_means_the_same(c: CmdContext, path: Seq<char>)
    ensures
        c.absolute(c.absolute(path)) == c.absolute(path),
        c.has(c.absolute(path)) == c.has(path),
        c.has_dir(c.absolute(path)) == c.has_dir(path),
        c.has_file(c.absolute(path)) == c.has_file(path),
        c.size_of(c.absolute(path)) == c.size_of(path),
{
    crate::path::law_resolved_is_absolute(c.cwd@, c.cwd@, path);
}

} // verus!
