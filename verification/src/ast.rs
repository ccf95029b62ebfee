//! Abstract syntax tree for shell commands.
use smallvec::SmallVec;
use vstd::prelude::*;

verus! {

/// A word of a command line.
#[derive(Debug, Clone)]
pub struct Word {
    /// The word as it was written.
    pub text: String,
}

/// The words of a simple command: up to eight are kept without an allocation.
#[verifier::external_body]
#[derive(Debug)]
pub struct Words {
    items: SmallVec<[Word; 8]>,
}

/// The words that a list holds, in order.
pub uninterp spec fn words_of(v: Words) -> Seq<Word>;

impl Words {
    /// `SmallVec::from_vec`: a list of the given words.
    #[verifier::external_body]
    pub(crate) fn from_vec(v: Vec<Word>) -> (r: Self)
        ensures
            words_of(r) == v@,
    {
        Words { items: SmallVec::from_vec(v) }
    }

    /// `SmallVec::as_slice`: the words that the list holds, in order.
    #[verifier::external_body]
    pub(crate) fn as_slice(&self) -> (r: &[Word])
        ensures
            r@ == words_of(*self),
    {
        self.items.as_slice()
    }

    /// How many words the list holds.
    pub fn len(&self) -> (r: usize)
        ensures
            r == words_of(*self).len(),
    {
        self.as_slice().len()
    }

    /// The word at a place of the list.
    pub fn at(&self, i: usize) -> (r: &Word)
        requires
            i < words_of(*self).len(),
        ensures
            *r == words_of(*self)[i as int],
    {
        &self.as_slice()[i]
    }
}

/// The redirections of a simple command: up to two are kept without an allocation.
#[verifier::external_body]
#[derive(Debug)]
pub struct Redirects {
    items: SmallVec<[Redirect; 2]>,
}

/// The redirections that a list holds, in order.
pub uninterp spec fn redirects_of(v: Redirects) -> Seq<Redirect>;

impl Redirects {
    /// `SmallVec::from_vec`: a list of the given redirections.
    #[verifier::external_body]
    pub(crate) fn from_vec(v: Vec<Redirect>) -> (r: Self)
        ensures
            redirects_of(r) == v@,
    {
        Redirects { items: SmallVec::from_vec(v) }
    }

    /// `SmallVec::as_slice`: the redirections that the list holds, in order.
    #[verifier::external_body]
    pub(crate) fn as_slice(&self) -> (r: &[Redirect])
        ensures
            r@ == redirects_of(*self),
    {
        self.items.as_slice()
    }

    /// How many redirections the list holds.
    pub fn len(&self) -> (r: usize)
        ensures
            r == redirects_of(*self).len(),
    {
        self.as_slice().len()
    }

    /// The redirection at a place of the list.
    pub fn at(&self, i: usize) -> (r: &Redirect)
        requires
            i < redirects_of(*self).len(),
        ensures
            *r == redirects_of(*self)[i as int],
    {
        &self.as_slice()[i]
    }
}

/// A shell command.
#[derive(Debug)]
pub enum Command {
    /// Simple command: `ls -la /tmp`
    Simple {
        /// Command and arguments.
        argv: Words,
        /// I/O redirections.
        redirects: Redirects,
    },
    /// Pipeline: `cat file | grep foo | wc -l`
    Pipeline {
        /// Commands in the pipeline.
        commands: Vec<Command>,
    },
    /// And list: `cmd1 && cmd2`
    And {
        left: Box<Command>,
        right: Box<Command>,
    },
    /// Or list: `cmd1 || cmd2`
    Or {
        left: Box<Command>,
        right: Box<Command>,
    },
    /// Sequence: `cmd1 ; cmd2`
    Sequence {
        /// Commands in sequence.
        commands: Vec<Command>,
    },
    /// Background: `cmd &`
    Background {
        command: Box<Command>,
    },
    /// Subshell: `(cmd1 | cmd2)`
    Subshell {
        command: Box<Command>,
    },
    /// Empty command (e.g., blank line).
    Empty,
}

impl Command {
    /// Create a simple command from argv.
    pub fn simple(argv: Vec<Word>) -> (r: Self)
        ensures
            r matches Command::Simple { argv: w, redirects } && words_of(w) == argv@
                && redirects_of(redirects) == Seq::<Redirect>::empty(),
    {
        Command::Simple {
            argv: Words::from_vec(argv),
            redirects: Redirects::from_vec(Vec::new()),
        }
    }

    /// Create a simple command with redirects.
    pub fn simple_with_redirects(argv: Vec<Word>, redirects: Vec<Redirect>) -> (r: Self)
        ensures
            r matches Command::Simple { argv: w, redirects: d } && words_of(w) == argv@
                && redirects_of(d) == redirects@,
    {
        Command::Simple {
            argv: Words::from_vec(argv),
            redirects: Redirects::from_vec(redirects),
        }
    }

    /// Create a pipeline. One command alone is no pipeline.
    pub fn pipeline(commands: Vec<Command>) -> (r: Self)
        ensures
            r == (if commands@.len() == 1 {
                commands@[0]
            } else {
                Command::Pipeline { commands }
            }),
    {
        let mut commands = commands;
        if commands.len() == 1 {
            match commands.pop() {
                Some(c) => c,
                None => Command::Empty,
            }
        } else {
            Command::Pipeline { commands }
        }
    }

    /// Check if this is an empty command.
    pub fn is_empty(&self) -> (r: bool)
        ensures
            r == (*self is Empty),
    {
        match self {
            Command::Empty => true,
            _ => false,
        }
    }
}

/// I/O redirection.
#[derive(Debug, Clone)]
pub struct Redirect {
    /// Source file descriptor (0=stdin, 1=stdout, 2=stderr).
    pub source_fd: i32,
    /// Redirect operation.
    pub kind: RedirectKind,
    /// Target (file or fd).
    pub target: RedirectTarget,
}

/// Type of redirect operation.
#[derive(Debug, Clone, Copy, PartialEq, Eq, Structural)]
pub enum RedirectKind {
    /// Write (truncate): `>`
    Write,
    /// Append: `>>`
    Append,
    /// Read: `<`
    Read,
}

/// Target of a redirect.
#[derive(Debug, Clone)]
pub enum RedirectTarget {
    /// Redirect to/from a file.
    File(Word),
    /// Duplicate another file descriptor (e.g., `2>&1`).
    Fd(i32),
    /// Here document content: the text to provide as stdin.
    HereDoc {
        /// The heredoc content (lines joined with newlines).
        content: String,
        /// Whether to strip leading tabs (from `<<-` syntax).
        strip_tabs: bool,
    },
}

impl Redirect {
    /// Create stdout write redirect: `> file`
    pub fn stdout_write(path: Word) -> (r: Self)
        ensures
            r == (Redirect {
                source_fd: 1,
                kind: RedirectKind::Write,
                target: RedirectTarget::File(path),
            }),
    {
        Redirect { source_fd: 1, kind: RedirectKind::Write, target: RedirectTarget::File(path) }
    }

    /// Create stdout append redirect: `>> file`
    pub fn stdout_append(path: Word) -> (r: Self)
        ensures
            r == (Redirect {
                source_fd: 1,
                kind: RedirectKind::Append,
                target: RedirectTarget::File(path),
            }),
    {
        Redirect { source_fd: 1, kind: RedirectKind::Append, target: RedirectTarget::File(path) }
    }

    /// Create stdin read redirect: `< file`
    pub fn stdin_read(path: Word) -> (r: Self)
        ensures
            r == (Redirect {
                source_fd: 0,
                kind: RedirectKind::Read,
                target: RedirectTarget::File(path),
            }),
    {
        Redirect { source_fd: 0, kind: RedirectKind::Read, target: RedirectTarget::File(path) }
    }

    /// Create stderr write redirect: `2> file`
    pub fn stderr_write(path: Word) -> (r: Self)
        ensures
            r == (Redirect {
                source_fd: 2,
                kind: RedirectKind::Write,
                target: RedirectTarget::File(path),
            }),
    {
        Redirect { source_fd: 2, kind: RedirectKind::Write, target: RedirectTarget::File(path) }
    }

    /// Create stderr append redirect: `2>> file`
    pub fn stderr_append(path: Word) -> (r: Self)
        ensures
            r == (Redirect {
                source_fd: 2,
                kind: RedirectKind::Append,
                target: RedirectTarget::File(path),
            }),
    {
        Redirect { source_fd: 2, kind: RedirectKind::Append, target: RedirectTarget::File(path) }
    }

    /// Create fd duplication: `2>&1`
    pub fn dup_fd(source: i32, target: i32) -> (r: Self)
        ensures
            r == (Redirect {
                source_fd: source,
                kind: RedirectKind::Write,
                target: RedirectTarget::Fd(target),
            }),
    {
        Redirect { source_fd: source, kind: RedirectKind::Write, target: RedirectTarget::Fd(target) }
    }

    /// Create stdin heredoc: `<<EOF` or `<<-EOF`
    pub fn stdin_heredoc(content: String, strip_tabs: bool) -> (r: Self)
        ensures
            r == (Redirect {
                source_fd: 0,
                kind: RedirectKind::Read,
                target: RedirectTarget::HereDoc { content, strip_tabs },
            }),
    {
        Redirect {
            source_fd: 0,
            kind: RedirectKind::Read,
            target: RedirectTarget::HereDoc { content, strip_tabs },
        }
    }
}

} // verus!
