//! Errors.
use vstd::prelude::*;
use vstd::string::StringExecFns;
use crate::num::{decimal, write_decimal};
use crate::text::push_chars;

verus! {

/// What a filesystem refuses.
#[derive(Debug)]
pub enum VfsError {
    /// The path does not exist.
    NotFound(String),
    /// The path may not be used in this way.
    PermissionDenied(String),
    /// A directory was expected.
    NotADirectory(String),
    /// A file was expected.
    NotAFile(String),
    /// The path exists already.
    AlreadyExists(String),
    /// The path cannot name anything.
    InvalidPath(String),
}

impl Clone for VfsError {
    fn clone(&self) -> (r: Self)
        ensures
            r == *self,
    {
        match self {
            VfsError::NotFound(s) => VfsError::NotFound(s.clone()),
            VfsError::PermissionDenied(s) => VfsError::PermissionDenied(s.clone()),
            VfsError::NotADirectory(s) => VfsError::NotADirectory(s.clone()),
            VfsError::NotAFile(s) => VfsError::NotAFile(s.clone()),
            VfsError::AlreadyExists(s) => VfsError::AlreadyExists(s.clone()),
            VfsError::InvalidPath(s) => VfsError::InvalidPath(s.clone()),
        }
    }
}

/// I/O error type for shell operations.
#[derive(Debug)]
pub enum IoError {
    /// File not found.
    NotFound(String),
    /// Is a directory.
    IsDir(String),
    /// Not a directory.
    NotDir(String),
    /// Permission denied.
    Permission(String),
    /// File exists.
    Exists(String),
    /// Invalid seek.
    InvalidSeek,
    /// I/O error.
    Io(String),
    /// An error of the filesystem, with the filesystem's message.
    Vfs(VfsError, String),
}

impl IoError {
    /// The text that an error is shown as.
    pub open spec fn spec_message(self) -> Seq<char> {
        match self {
            IoError::NotFound(p) => "no such file or directory: "@ + p@,
            IoError::IsDir(p) => "is a directory: "@ + p@,
            IoError::NotDir(p) => "not a directory: "@ + p@,
            IoError::Permission(p) => "permission denied: "@ + p@,
            IoError::Exists(p) => "file exists: "@ + p@,
            IoError::InvalidSeek => "invalid seek"@,
            IoError::Io(m) => "I/O error: "@ + m@,
            IoError::Vfs(_, m) => m@,
        }
    }

    /// The text that an error is shown as.
    pub fn message(&self) -> (r: String)
        ensures
            r@ == self.spec_message(),
    {
        match self {
            IoError::NotFound(p) => labelled("no such file or directory: ", p.as_str()),
            IoError::IsDir(p) => labelled("is a directory: ", p.as_str()),
            IoError::NotDir(p) => labelled("not a directory: ", p.as_str()),
            IoError::Permission(p) => labelled("permission denied: ", p.as_str()),
            IoError::Exists(p) => labelled("file exists: ", p.as_str()),
            IoError::InvalidSeek => "invalid seek".to_owned(),
            IoError::Io(m) => labelled("I/O error: ", m.as_str()),
            IoError::Vfs(_, m) => m.clone(),
        }
    }
}

/// One text behind another.
pub fn labelled(label: &str, text: &str) -> (r: String)
    ensures
        r@ == label@ + text@,
{
    let mut r = label.to_owned();
    r.append(text);
    r
}

/// Shell error type.
#[derive(Debug)]
pub enum ShellError {
    /// Command not found.
    CommandNotFound(String),
    /// Syntax error in input.
    Syntax { message: String, position: usize },
    /// I/O error, in the system's own words.
    Io(String),
    /// Filesystem error, in the filesystem's own words.
    Vfs(String),
    /// Argument parsing error.
    Arg(String),
    /// Job not found.
    JobNotFound(usize),
    /// Redirect error.
    Redirect(String),
    /// Scheduler error.
    Scheduler(String),
    /// Pipe error.
    BrokenPipe,
}

impl ShellError {
    /// The text that an error is shown as.
    pub open spec fn spec_message(self) -> Seq<char> {
        match self {
            ShellError::CommandNotFound(m) => "command not found: "@ + m@,
            ShellError::Syntax { message, .. } => "syntax error: "@ + message@,
            ShellError::Io(m) => "I/O error: "@ + m@,
            ShellError::Vfs(m) => "filesystem error: "@ + m@,
            ShellError::Arg(m) => "argument error: "@ + m@,
            ShellError::JobNotFound(n) => "job not found: %"@ + decimal(n as nat),
            ShellError::Redirect(m) => "redirect error: "@ + m@,
            ShellError::Scheduler(m) => "scheduler error: "@ + m@,
            ShellError::BrokenPipe => "broken pipe"@,
        }
    }

    /// The text that an error is shown as.
    pub fn message(&self) -> (r: String)
        ensures
            r@ == self.spec_message(),
    {
        match self {
            ShellError::CommandNotFound(m) => labelled("command not found: ", m.as_str()),
            ShellError::Syntax { message, .. } => labelled("syntax error: ", message.as_str()),
            ShellError::Io(m) => labelled("I/O error: ", m.as_str()),
            ShellError::Vfs(m) => labelled("filesystem error: ", m.as_str()),
            ShellError::Arg(m) => labelled("argument error: ", m.as_str()),
            ShellError::JobNotFound(n) => {
                let mut r = "job not found: %".to_owned();
                let ds = write_decimal(*n as u64);
                push_chars(&mut r, &ds);
                r
            },
            ShellError::Redirect(m) => labelled("redirect error: ", m.as_str()),
            ShellError::Scheduler(m) => labelled("scheduler error: ", m.as_str()),
            ShellError::BrokenPipe => "broken pipe".to_owned(),
        }
    }
}

/// Result type for shell operations.
pub type Result<T> = std::result::Result<T, ShellError>;

/// What is said of an error: what went wrong, and of what.
pub proof fn law_messages(p: String, e: VfsError, n: usize)
    ensures
        IoError::NotFound(p).spec_message() == "no such file or directory: "@ + p@,
        IoError::IsDir(p).spec_message() == "is a directory: "@ + p@,
        IoError::NotDir(p).spec_message() == "not a directory: "@ + p@,
        IoError::Permission(p).spec_message() == "permission denied: "@ + p@,
        IoError::Exists(p).spec_message() == "file exists: "@ + p@,
        IoError::InvalidSeek.spec_message() == "invalid seek"@,
        IoError::Io(p).spec_message() == "I/O error: "@ + p@,
        IoError::Vfs(e, p).spec_message() == p@,
        ShellError::CommandNotFound(p).spec_message() == "command not found: "@ + p@,
        (ShellError::Syntax { message: p, position: n }).spec_message() == "syntax error: "@ + p@,
        ShellError::Io(p).spec_message() == "I/O error: "@ + p@,
        ShellError::Vfs(p).spec_message() == "filesystem error: "@ + p@,
        ShellError::Arg(p).spec_message() == "argument error: "@ + p@,
        ShellError::JobNotFound(n).spec_message() == "job not found: %"@ + decimal(n as nat),
        ShellError::Redirect(p).spec_message() == "redirect error: "@ + p@,
        ShellError::Scheduler(p).spec_message() == "scheduler error: "@ + p@,
        ShellError::BrokenPipe.spec_message() == "broken pipe"@,
{
}

} // verus!
