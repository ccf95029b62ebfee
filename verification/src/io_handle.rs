//! I/O handles of a command: what each kind of handle does with a read or a write.
//!
//! A handle holds what it has to remember between calls. Where a call needs the
//! filesystem, a pipe or the host, it returns a step that says what is needed, and
//! a second call takes the answer.
use vstd::prelude::*;
use crate::error::{labelled, IoError, VfsError};
use crate::fs::Snapshot;
use crate::text::{append_all, find_byte, find_from, lemma_find_from, part, str_eq};

verus! {

/// An I/O handle.
#[derive(Debug)]
pub enum IoHandle {
    /// A pipe between commands.
    Pipe {
        /// How many bytes the pipe holds.
        capacity: usize,
    },
    /// A file with a position.
    File {
        /// File path.
        path: String,
        /// Current position in the file.
        pos: usize,
        /// Whether the file is readable.
        readable: bool,
        /// Whether the file is writable.
        writable: bool,
        /// Whether to append on write.
        append: bool,
    },
    /// In-memory buffer.
    Buffer {
        /// Buffer data.
        data: Vec<u8>,
        /// Current position.
        pos: usize,
    },
    /// Null device: reads return nothing, writes succeed.
    Null,
    /// A stream of the host. Output is kept until a newline or `max_size` bytes
    /// have come.
    HostStream {
        /// Stream type (0=stdin, 1=stdout, 2=stderr).
        stream: u8,
        /// Bytes that wait: for a reader, or to be printed.
        buffer: Vec<u8>,
        /// Maximum buffer size before output is printed without a newline.
        max_size: usize,
    },
}

/// What a read needs.
#[derive(Debug)]
pub enum ReadStep {
    /// The read is done with these bytes.
    Done(Vec<u8>),
    /// The read fails.
    Failed(IoError),
    /// Bytes of the pipe.
    Pipe,
    /// The contents of the file under this path; see `IoHandle::read_contents`.
    File(String),
    /// Up to so many bytes of the host's input; see `IoHandle::read_input`.
    Input(usize),
}

/// What a write needs.
#[derive(Debug)]
pub enum WriteStep {
    /// So many bytes were written.
    Done(usize),
    /// The write fails.
    Failed(IoError),
    /// The pipe takes the bytes.
    Pipe,
    /// The bytes are appended to the file under this path; see
    /// `IoHandle::write_appended`.
    Append(String),
    /// The file under this path gets new contents; see `IoHandle::new_contents` and
    /// `IoHandle::write_replaced`.
    Replace(String),
    /// The host prints what `IoHandle::next_block` gives, until it gives nothing.
    Print,
}

pub open spec fn least(a: int, b: int) -> int {
    if a <= b {
        a
    } else {
        b
    }
}

/// The bytes that a read of `len` gets at position `pos`.
pub open spec fn window(data: Seq<u8>, pos: int, len: int) -> Seq<u8> {
    if pos >= data.len() {
        Seq::empty()
    } else {
        data.subrange(pos, pos + least(len, data.len() - pos))
    }
}

/// Contents after `buf` has been written at position `pos`. What lies between the
/// old end and `pos` is zero.
pub open spec fn overlaid(data: Seq<u8>, pos: int, buf: Seq<u8>) -> Seq<u8> {
    let n = if pos + buf.len() > data.len() {
        (pos + buf.len()) as nat
    } else {
        data.len()
    };
    Seq::new(
        n,
        |i: int|
            if pos <= i < pos + buf.len() {
                buf[i - pos]
            } else if i < data.len() {
                data[i]
            } else {
                0u8
            },
    )
}

/// How many of the waiting bytes are printed next: up to and with the first
/// newline, or `max` where there is none and so many wait.
pub open spec fn block_len(buffer: Seq<u8>, max: int) -> Option<int> {
    let at = find_from(buffer, 10u8, 0);
    if at < buffer.len() {
        Some(at + 1)
    } else if buffer.len() >= max {
        Some(max)
    } else {
        None
    }
}

/// The blocks that are printed of the waiting bytes.
pub open spec fn blocks(buffer: Seq<u8>, max: int) -> Seq<Seq<u8>>
    decreases buffer.len(),
{
    match block_len(buffer, max) {
        Some(n) => if 0 < n <= buffer.len() {
            seq![buffer.take(n)] + blocks(buffer.skip(n), max)
        } else {
            Seq::empty()
        },
        None => Seq::empty(),
    }
}

/// What still waits after all blocks have been printed.
pub open spec fn left_waiting(buffer: Seq<u8>, max: int) -> Seq<u8>
    decreases buffer.len(),
{
    match block_len(buffer, max) {
        Some(n) => if 0 < n <= buffer.len() {
            left_waiting(buffer.skip(n), max)
        } else {
            buffer
        },
        None => buffer,
    }
}

fn smaller(a: usize, b: usize) -> (r: usize)
    ensures
        r == least(a as int, b as int),
{
    if a <= b {
        a
    } else {
        b
    }
}

fn read_window(data: &Vec<u8>, pos: usize, len: usize) -> (r: Vec<u8>)
    ensures
        r@ == window(data@, pos as int, len as int),
        pos + r@.len() <= usize::MAX,
{
    if pos >= data.len() {
        let none: Vec<u8> = Vec::new();
        return none;
    }
    let n = smaller(len, data.len() - pos);
    part(data, pos, pos + n)
}

fn overlay(data: &mut Vec<u8>, pos: usize, buf: &[u8])
    requires
        pos + buf@.len() <= usize::MAX,
    ensures
        final(data)@ == overlaid(old(data)@, pos as int, buf@),
{
    let ghost before = data@;
    if pos + buf.len() > data.len() {
        data.resize(pos + buf.len(), 0u8);
    }
    let ghost grown = data@;
    let mut i: usize = 0;
    while i < buf.len()
        invariant
            pos + buf.len() <= data.len(),
            buf.len() == buf@.len(),
            data@.len() == grown.len(),
            i <= buf@.len(),
            forall|k: int|
                0 <= k < grown.len() ==> #[trigger] data@[k] == (if pos <= k < pos + i {
                    buf@[k - pos]
                } else {
                    grown[k]
                }),
        decreases buf@.len() - i,
    {
        data.set(pos + i, buf[i]);
        i += 1;
    }
    proof {
        assert(data@ =~= overlaid(before, pos as int, buf@));
    }
}

impl IoHandle {
    /// The bytes that a handle keeps.
    pub open spec fn held(self) -> Seq<u8> {
        match self {
            IoHandle::Buffer { data, .. } => data@,
            IoHandle::HostStream { buffer, .. } => buffer@,
            _ => Seq::empty(),
        }
    }

    /// Whether two handles agree in all but the bytes that they keep and their
    /// positions.
    pub open spec fn same_kind(self, other: IoHandle) -> bool {
        match (self, other) {
            (IoHandle::Pipe { capacity: a }, IoHandle::Pipe { capacity: b }) => a == b,
            (
                IoHandle::File { path: p, readable: r, writable: w, append: a, .. },
                IoHandle::File { path: p2, readable: r2, writable: w2, append: a2, .. },
            ) => p == p2 && r == r2 && w == w2 && a == a2,
            (IoHandle::Buffer { .. }, IoHandle::Buffer { .. }) => true,
            (IoHandle::Null, IoHandle::Null) => true,
            (
                IoHandle::HostStream { stream: s, max_size: m, .. },
                IoHandle::HostStream { stream: s2, max_size: m2, .. },
            ) => s == s2 && m == m2,
            _ => false,
        }
    }

    /// The position of a handle.
    pub open spec fn spec_pos(self) -> int {
        match self {
            IoHandle::File { pos, .. } => pos as int,
            IoHandle::Buffer { pos, .. } => pos as int,
            _ => 0,
        }
    }

    /// Create a new pipe handle.
    pub fn pipe(capacity: usize) -> (r: Self)
        ensures
            r == (IoHandle::Pipe { capacity }),
    {
        IoHandle::Pipe { capacity }
    }

    /// Create a new buffer handle.
    pub fn buffer() -> (r: Self)
        ensures
            r is Buffer,
            r.held() == Seq::<u8>::empty(),
            r.spec_pos() == 0,
    {
        IoHandle::Buffer { data: Vec::new(), pos: 0 }
    }

    /// Create a buffer handle with initial data.
    pub fn from_bytes(bytes: Vec<u8>) -> (r: Self)
        ensures
            r == (IoHandle::Buffer { data: bytes, pos: 0 }),
    {
        IoHandle::Buffer { data: bytes, pos: 0 }
    }

    /// Create a buffer handle from a string.
    pub fn from_string(s: &str) -> (r: Self)
        ensures
            r is Buffer,
            r.held() == vstd::utf8::encode_utf8(s@),
            r.spec_pos() == 0,
    {
        let bytes = s.as_bytes();
        IoHandle::Buffer { data: part(bytes, 0, bytes.len()), pos: 0 }
    }

    /// Take the contents of a buffer handle. A handle of another kind has none.
    pub fn take_buffer(&mut self) -> (r: Vec<u8>)
        ensures
            match *old(self) {
                IoHandle::Buffer { data, .. } => r@ == data@ && *final(self) is Buffer
                    && final(self).held() == Seq::<u8>::empty() && final(self).spec_pos() == 0,
                _ => r@ == Seq::<u8>::empty() && *final(self) == *old(self),
            },
    {
        let mut out: Vec<u8> = Vec::new();
        match self {
            IoHandle::Buffer { data, pos } => {
                *pos = 0;
                std::mem::swap(data, &mut out);
            },
            _ => {},
        }
        out
    }

    /// Create a new null handle.
    pub fn null() -> (r: Self)
        ensures
            r is Null,
    {
        IoHandle::Null
    }

    /// Create a host stdout handle.
    pub fn host_stdout(max_size: usize) -> (r: Self)
        ensures
            r matches IoHandle::HostStream { stream, buffer, max_size: m } && stream == 1
                && buffer@ == Seq::<u8>::empty() && m == max_size,
    {
        IoHandle::HostStream { stream: 1, buffer: Vec::new(), max_size }
    }

    /// Create a host stderr handle.
    pub fn host_stderr(max_size: usize) -> (r: Self)
        ensures
            r matches IoHandle::HostStream { stream, buffer, max_size: m } && stream == 2
                && buffer@ == Seq::<u8>::empty() && m == max_size,
    {
        IoHandle::HostStream { stream: 2, buffer: Vec::new(), max_size }
    }

    /// Create a host stdin handle.
    pub fn host_stdin() -> (r: Self)
        ensures
            r matches IoHandle::HostStream { stream, buffer, max_size } && stream == 0
                && buffer@ == Seq::<u8>::empty() && max_size == 0,
    {
        IoHandle::HostStream { stream: 0, buffer: Vec::new(), max_size: 0 }
    }

    /// Take the output that waits in a host stream, with the number of the stream.
    pub fn take_buffered_output(&mut self) -> (r: Option<(u8, Vec<u8>)>)
        ensures
            match *old(self) {
                IoHandle::HostStream { stream, buffer, .. } if stream != 0 && buffer@.len() > 0 => {
                    r matches Some((s, bytes)) && s == stream && bytes@ == buffer@
                        && final(self).same_kind(*old(self))
                        && final(self).held() == Seq::<u8>::empty()
                },
                _ => r is None && *final(self) == *old(self),
            },
    {
        match self {
            IoHandle::HostStream { stream, buffer, .. } => {
                if *stream == 0 || buffer.len() == 0 {
                    return None;
                }
                let mut out: Vec<u8> = Vec::new();
                std::mem::swap(buffer, &mut out);
                Some((*stream, out))
            },
            _ => None,
        }
    }

    /// Create a file handle for reading.
    pub fn open_read(fs: &Snapshot, path: String) -> (r: std::result::Result<Self, IoError>)
        ensures
            r == (if !fs.spec_exists(path@) {
                Err(IoError::NotFound(path))
            } else if fs.spec_is_dir(path@) {
                Err(IoError::IsDir(path))
            } else {
                Ok::<IoHandle, IoError>(
                    IoHandle::File { path, pos: 0, readable: true, writable: false, append: false },
                )
            }),
    {
        if !fs.path_exists(path.as_str()) {
            return Err(IoError::NotFound(path));
        }
        if fs.is_dir(path.as_str()) {
            return Err(IoError::IsDir(path));
        }
        Ok(IoHandle::File { path, pos: 0, readable: true, writable: false, append: false })
    }

    /// Create a file handle for writing. The file is then created or truncated; see
    /// `IoHandle::opened`.
    pub fn open_write(fs: &Snapshot, path: String) -> (r: std::result::Result<Self, IoError>)
        ensures
            r == (if fs.spec_is_dir(path@) {
                Err(IoError::IsDir(path))
            } else {
                Ok::<IoHandle, IoError>(
                    IoHandle::File { path, pos: 0, readable: false, writable: true, append: false },
                )
            }),
    {
        if fs.is_dir(path.as_str()) {
            return Err(IoError::IsDir(path));
        }
        Ok(IoHandle::File { path, pos: 0, readable: false, writable: true, append: false })
    }

    /// Create a file handle for appending. The second value says whether the file
    /// has to be created; see `IoHandle::opened` and `IoHandle::write_appended`.
    pub fn open_append(fs: &Snapshot, path: String) -> (r: std::result::Result<
        (Self, bool),
        IoError,
    >)
        ensures
            r == (if fs.spec_is_dir(path@) {
                Err(IoError::IsDir(path))
            } else {
                Ok::<(IoHandle, bool), IoError>(
                    (
                        IoHandle::File {
                            path,
                            pos: 0,
                            readable: false,
                            writable: true,
                            append: true,
                        },
                        !fs.spec_exists(path@),
                    ),
                )
            }),
    {
        if fs.is_dir(path.as_str()) {
            return Err(IoError::IsDir(path));
        }
        let missing = !fs.path_exists(path.as_str());
        Ok((IoHandle::File { path, pos: 0, readable: false, writable: true, append: true }, missing))
    }

    /// The opened handle, once its file has been created and `size` bytes stand in
    /// it; the filesystem's error where it could not be created.
    pub fn opened(
        self,
        created: std::result::Result<(), (VfsError, String)>,
        size: usize,
    ) -> (r: std::result::Result<Self, IoError>)
        ensures
            match created {
                Err((e, m)) => r == Err::<IoHandle, IoError>(IoError::Vfs(e, m)),
                Ok(_) => match self {
                    IoHandle::File { path, readable, writable, append, .. } => r == Ok::<
                        IoHandle,
                        IoError,
                    >(IoHandle::File { path, pos: size, readable, writable, append }),
                    _ => r == Ok::<IoHandle, IoError>(self),
                },
            },
    {
        match created {
            Err((e, m)) => Err(IoError::Vfs(e, m)),
            Ok(_) => match self {
                IoHandle::File { path, readable, writable, append, .. } => Ok(
                    IoHandle::File { path, pos: size, readable, writable, append },
                ),
                other => Ok(other),
            },
        }
    }

    /// Open a file for reading, or return stdin if path is "-".
    pub fn open_file_or_stdin(fs: &Snapshot, path: &str, stdin: IoHandle) -> (r:
        std::result::Result<Self, IoError>)
        ensures
            path@ == "-"@ ==> r == Ok::<IoHandle, IoError>(stdin),
            path@ != "-"@ ==> match r {
                Ok(h) => fs.spec_exists(path@) && !fs.spec_is_dir(path@) && (h matches
                    IoHandle::File { path: p, pos, readable, writable, append } && p@ == path@
                    && pos == 0 && readable && !writable && !append),
                Err(IoError::NotFound(p)) => p@ == path@ && !fs.spec_exists(path@),
                Err(IoError::IsDir(p)) => p@ == path@ && fs.spec_is_dir(path@),
                Err(_) => false,
            },
    {
        if str_eq(path, "-") {
            Ok(stdin)
        } else {
            Self::open_read(fs, path.to_owned())
        }
    }

    /// Read up to `len` bytes.
    pub fn read(&mut self, len: usize) -> (r: ReadStep)
        ensures
            final(self).same_kind(*old(self)),
            match *old(self) {
                IoHandle::Pipe { .. } => r is Pipe && *final(self) == *old(self),
                IoHandle::File { path, readable, .. } => *final(self) == *old(self)
                    && if readable {
                    r matches ReadStep::File(p) && p@ == path@
                } else {
                    r matches ReadStep::Failed(IoError::Permission(p)) && p@ == path@
                },
                IoHandle::Buffer { data, pos } => r matches ReadStep::Done(bytes) && bytes@
                    == window(data@, pos as int, len as int) && final(self).held() == data@
                    && final(self).spec_pos() == pos + bytes@.len(),
                IoHandle::Null => r matches ReadStep::Done(bytes) && bytes@.len() == 0,
                IoHandle::HostStream { stream, buffer, .. } => if stream != 0 {
                    (r matches ReadStep::Failed(IoError::Permission(p)) && p@
                        == "cannot read from stdout/stderr"@) && *final(self) == *old(self)
                } else if buffer@.len() > 0 {
                    (r matches ReadStep::Done(bytes) && bytes@ == window(buffer@, 0, len as int)
                        && final(self).held() == buffer@.skip(bytes@.len() as int))
                } else {
                    r == ReadStep::Input(len) && *final(self) == *old(self)
                },
            },
    {
        match self {
            IoHandle::Pipe { .. } => ReadStep::Pipe,
            IoHandle::File { path, readable, .. } => {
                if !*readable {
                    ReadStep::Failed(IoError::Permission(path.clone()))
                } else {
                    ReadStep::File(path.clone())
                }
            },
            IoHandle::Buffer { data, pos } => {
                let bytes = read_window(data, *pos, len);
                *pos = *pos + bytes.len();
                ReadStep::Done(bytes)
            },
            IoHandle::Null => ReadStep::Done(Vec::new()),
            IoHandle::HostStream { stream, buffer, .. } => {
                if *stream != 0 {
                    return ReadStep::Failed(
                        IoError::Permission("cannot read from stdout/stderr".to_owned()),
                    );
                }
                if buffer.len() == 0 {
                    return ReadStep::Input(len);
                }
                let bytes = read_window(buffer, 0, len);
                let rest = part(buffer, bytes.len(), buffer.len());
                proof {
                    assert(rest@ =~= buffer@.skip(bytes@.len() as int));
                }
                *buffer = rest;
                ReadStep::Done(bytes)
            },
        }
    }

    /// Goes on with a read of a file when its contents have come.
    pub fn read_contents(
        &mut self,
        len: usize,
        contents: std::result::Result<Vec<u8>, (VfsError, String)>,
    ) -> (r: std::result::Result<Vec<u8>, IoError>)
        requires
            *old(self) is File,
        ensures
            final(self).same_kind(*old(self)),
            match contents {
                Err((e, m)) => r == Err::<Vec<u8>, IoError>(IoError::Vfs(e, m)) && *final(self)
                    == *old(self),
                Ok(data) => r matches Ok(bytes) && bytes@ == window(
                    data@,
                    old(self).spec_pos(),
                    len as int,
                ) && final(self).spec_pos() == old(self).spec_pos() + bytes@.len(),
            },
    {
        match contents {
            Err((e, m)) => Err(IoError::Vfs(e, m)),
            Ok(data) => match self {
                IoHandle::File { pos, .. } => {
                    let bytes = read_window(&data, *pos, len);
                    *pos = *pos + bytes.len();
                    Ok(bytes)
                },
                _ => Ok(Vec::new()),
            },
        }
    }

    /// Goes on with a read of the host's input when the host has answered. What it
    /// sent beyond `len` bytes waits for the next read.
    pub fn read_input(
        &mut self,
        len: usize,
        reply: std::result::Result<Vec<u8>, String>,
    ) -> (r: std::result::Result<Vec<u8>, IoError>)
        requires
            *old(self) is HostStream,
        ensures
            final(self).same_kind(*old(self)),
            match reply {
                Err(m) => r == Err::<Vec<u8>, IoError>(IoError::Io(m)) && *final(self) == *old(self),
                Ok(data) => r matches Ok(bytes) && bytes@ == window(data@, 0, len as int)
                    && final(self).held() == old(self).held() + data@.skip(bytes@.len() as int),
            },
    {
        match reply {
            Err(m) => Err(IoError::Io(m)),
            Ok(data) => match self {
                IoHandle::HostStream { buffer, .. } => {
                    let bytes = read_window(&data, 0, len);
                    let rest = part(&data, bytes.len(), data.len());
                    proof {
                        assert(rest@ =~= data@.skip(bytes@.len() as int));
                    }
                    append_all(buffer, &rest);
                    Ok(bytes)
                },
                _ => Ok(Vec::new()),
            },
        }
    }

    /// Write bytes.
    pub fn write(&mut self, buf: &[u8]) -> (r: WriteStep)
        requires
            *old(self) matches IoHandle::Buffer { pos, .. } ==> pos + buf@.len() <= usize::MAX,
        ensures
            final(self).same_kind(*old(self)),
            match *old(self) {
                IoHandle::Pipe { .. } => r is Pipe && *final(self) == *old(self),
                IoHandle::File { path, writable, append, .. } => *final(self) == *old(self)
                    && if !writable {
                    r matches WriteStep::Failed(IoError::Permission(p)) && p@ == path@
                } else if append {
                    r matches WriteStep::Append(p) && p@ == path@
                } else {
                    r matches WriteStep::Replace(p) && p@ == path@
                },
                IoHandle::Buffer { data, pos } => r == WriteStep::Done(buf@.len() as usize)
                    && final(self).held() == overlaid(data@, pos as int, buf@)
                        && final(self).spec_pos() == pos + buf@.len(),
                IoHandle::Null => r == WriteStep::Done(buf@.len() as usize),
                IoHandle::HostStream { stream, buffer, .. } => if stream == 0 {
                    (r matches WriteStep::Failed(IoError::Permission(p)) && p@
                        == "cannot write to stdin"@) && *final(self) == *old(self)
                } else {
                    r is Print && final(self).held() == buffer@ + buf@
                },
            },
    {
        match self {
            IoHandle::Pipe { .. } => WriteStep::Pipe,
            IoHandle::File { path, writable, append, .. } => {
                if !*writable {
                    WriteStep::Failed(IoError::Permission(path.clone()))
                } else if *append {
                    WriteStep::Append(path.clone())
                } else {
                    WriteStep::Replace(path.clone())
                }
            },
            IoHandle::Buffer { data, pos } => {
                overlay(data, *pos, buf);
                *pos = *pos + buf.len();
                WriteStep::Done(buf.len())
            },
            IoHandle::Null => WriteStep::Done(buf.len()),
            IoHandle::HostStream { stream, buffer, .. } => {
                if *stream == 0 {
                    return WriteStep::Failed(
                        IoError::Permission("cannot write to stdin".to_owned()),
                    );
                }
                append_all(buffer, buf);
                WriteStep::Print
            },
        }
    }

    /// Goes on with a write to a file that is appended to: `size` is the file's size
    /// after the bytes were appended.
    pub fn write_appended(
        &mut self,
        len: usize,
        size: std::result::Result<usize, (VfsError, String)>,
    ) -> (r: std::result::Result<usize, IoError>)
        requires
            *old(self) is File,
        ensures
            final(self).same_kind(*old(self)),
            match size {
                Err((e, m)) => r == Err::<usize, IoError>(IoError::Vfs(e, m)) && *final(self)
                    == *old(self),
                Ok(n) => r == Ok::<usize, IoError>(len) && final(self).spec_pos() == n,
            },
    {
        match size {
            Err((e, m)) => Err(IoError::Vfs(e, m)),
            Ok(n) => {
                match self {
                    IoHandle::File { pos, .. } => {
                        *pos = n;
                    },
                    _ => {},
                }
                Ok(len)
            },
        }
    }

    /// The contents that a file gets by a write; `contents` is what it holds, and
    /// empty where it cannot be read.
    pub fn new_contents(&self, contents: Vec<u8>, buf: &[u8]) -> (r: Vec<u8>)
        requires
            self.spec_pos() + buf@.len() <= usize::MAX,
        ensures
            r@ == overlaid(contents@, self.spec_pos(), buf@),
    {
        let mut data = contents;
        let at: usize = match self {
            IoHandle::File { pos, .. } => *pos,
            IoHandle::Buffer { pos, .. } => *pos,
            _ => 0,
        };
        overlay(&mut data, at, buf);
        data
    }

    /// Goes on with a write to a file when its new contents have been written.
    pub fn write_replaced(
        &mut self,
        len: usize,
        written: std::result::Result<(), (VfsError, String)>,
    ) -> (r: std::result::Result<usize, IoError>)
        requires
            *old(self) is File,
            old(self).spec_pos() + len <= usize::MAX,
        ensures
            final(self).same_kind(*old(self)),
            match written {
                Err((e, m)) => r == Err::<usize, IoError>(IoError::Vfs(e, m)) && *final(self)
                    == *old(self),
                Ok(_) => r == Ok::<usize, IoError>(len)
                    && final(self).spec_pos() == old(self).spec_pos() + len,
            },
    {
        match written {
            Err((e, m)) => Err(IoError::Vfs(e, m)),
            Ok(_) => {
                match self {
                    IoHandle::File { pos, .. } => {
                        *pos = *pos + len;
                    },
                    _ => {},
                }
                Ok(len)
            },
        }
    }

    /// Takes the next block that the host prints out of the waiting output.
    pub fn next_block(&mut self) -> (r: Option<Vec<u8>>)
        ensures
            final(self).same_kind(*old(self)),
            match *old(self) {
                IoHandle::HostStream { stream, buffer, max_size } if stream != 0 => match block_len(
                    buffer@,
                    max_size as int,
                ) {
                    Some(n) => (r matches Some(b) && b@ == buffer@.take(n)) && final(self).held()
                        == buffer@.skip(n),
                    None => r is None && *final(self) == *old(self),
                },
                _ => r is None && *final(self) == *old(self),
            },
    {
        match self {
            IoHandle::HostStream { stream, buffer, max_size } => {
                if *stream == 0 {
                    return None;
                }
                proof {
                    lemma_find_from(buffer@, 10u8, 0);
                }
                let at = find_byte(buffer, 10u8, 0);
                let n = if at < buffer.len() {
                    at + 1
                } else if buffer.len() >= *max_size {
                    *max_size
                } else {
                    return None;
                };
                let block = part(buffer, 0, n);
                let rest = part(buffer, n, buffer.len());
                proof {
                    assert(block@ =~= buffer@.take(n as int));
                    assert(rest@ =~= buffer@.skip(n as int));
                }
                *buffer = rest;
                Some(block)
            },
            _ => None,
        }
    }

    /// Get the buffer contents (of a buffer or a host stream).
    pub fn get_buffer(&self) -> (r: Option<Vec<u8>>)
        ensures
            match *self {
                IoHandle::Buffer { data, .. } => r matches Some(v) && v@ == data@,
                IoHandle::HostStream { buffer, .. } => r matches Some(v) && v@ == buffer@,
                _ => r is None,
            },
    {
        match self {
            IoHandle::Buffer { data, .. } => Some(part(data, 0, data.len())),
            IoHandle::HostStream { buffer, .. } => Some(part(buffer, 0, buffer.len())),
            _ => None,
        }
    }

    /// Drain all available data synchronously. `piped` is what was taken out of the pipe,
    /// where the handle is one. A file and the null device have nothing.
    pub fn drain(&mut self, piped: Vec<u8>) -> (r: Option<Vec<u8>>)
        ensures
            final(self).same_kind(*old(self)),
            match *old(self) {
                IoHandle::Pipe { .. } => r == Some(piped) && *final(self) == *old(self),
                IoHandle::Buffer { data, .. } => (r matches Some(v) && v@ == data@)
                    && final(self).held() == Seq::<u8>::empty() && final(self).spec_pos() == 0,
                IoHandle::HostStream { buffer, .. } => (r matches Some(v) && v@ == buffer@)
                    && final(self).held() == Seq::<u8>::empty(),
                _ => r is None && *final(self) == *old(self),
            },
    {
        let mut out: Vec<u8> = Vec::new();
        match self {
            IoHandle::Pipe { .. } => Some(piped),
            IoHandle::Buffer { data, pos } => {
                *pos = 0;
                std::mem::swap(data, &mut out);
                Some(out)
            },
            IoHandle::HostStream { buffer, .. } => {
                std::mem::swap(buffer, &mut out);
                Some(out)
            },
            _ => None,
        }
    }

    /// Take the output that the host prints when the handle is flushed.
    pub fn flush(&mut self) -> (r: Option<(u8, Vec<u8>)>)
        ensures
            match *old(self) {
                IoHandle::HostStream { stream, buffer, .. } if stream != 0 && buffer@.len() > 0 => {
                    r matches Some((s, bytes)) && s == stream && bytes@ == buffer@
                        && final(self).same_kind(*old(self))
                        && final(self).held() == Seq::<u8>::empty()
                },
                _ => r is None && *final(self) == *old(self),
            },
    {
        self.take_buffered_output()
    }

    /// The text that a handle is shown as.
    pub open spec fn spec_description(self) -> Seq<char> {
        match self {
            IoHandle::Pipe { .. } => "IoHandle::Pipe"@,
            IoHandle::File { path, .. } => "IoHandle::File("@ + path@ + ")"@,
            IoHandle::Buffer { .. } => "IoHandle::Buffer"@,
            IoHandle::Null => "IoHandle::Null"@,
            IoHandle::HostStream { stream, .. } => "IoHandle::HostStream("@ + (if stream == 0 {
                "stdin"@
            } else if stream == 1 {
                "stdout"@
            } else if stream == 2 {
                "stderr"@
            } else {
                "unknown"@
            }) + ")"@,
        }
    }

    /// The text that a handle is shown as.
    pub fn description(&self) -> (r: String)
        ensures
            r@ == self.spec_description(),
    {
        let (label, name) = match self {
            IoHandle::Pipe { .. } => return "IoHandle::Pipe".to_owned(),
            IoHandle::Buffer { .. } => return "IoHandle::Buffer".to_owned(),
            IoHandle::Null => return "IoHandle::Null".to_owned(),
            IoHandle::File { path, .. } => ("IoHandle::File(", path.as_str()),
            IoHandle::HostStream { stream, .. } => (
                "IoHandle::HostStream(",
                if *stream == 0 {
                    "stdin"
                } else if *stream == 1 {
                    "stdout"
                } else if *stream == 2 {
                    "stderr"
                } else {
                    "unknown"
                },
            ),
        };
        let mut r = label.to_owned();
        r.append(name);
        r.append(")");
        r
    }

    /// Check if this handle is a pipe.
    pub fn is_pipe(&self) -> (r: bool)
        ensures
            r == (*self is Pipe),
    {
        match self {
            IoHandle::Pipe { .. } => true,
            _ => false,
        }
    }

    /// Check if a reader waits for data; `waiting` tells it of the pipe.
    pub fn is_reader_blocked(&self, waiting: bool) -> (r: bool)
        ensures
            r == (*self is Pipe && waiting),
    {
        self.is_pipe() && waiting
    }

    /// Write at once: only a buffer and the null device can.
    pub fn write_sync(&mut self, buf: &[u8]) -> (r: std::result::Result<usize, IoError>)
        requires
            *old(self) matches IoHandle::Buffer { pos, .. } ==> pos + buf@.len() <= usize::MAX,
        ensures
            final(self).same_kind(*old(self)),
            match *old(self) {
                IoHandle::Buffer { data, pos } => r == Ok::<usize, IoError>(buf@.len() as usize)
                    && final(self).held() == overlaid(data@, pos as int, buf@)
                        && final(self).spec_pos() == pos + buf@.len(),
                IoHandle::Null => r == Ok::<usize, IoError>(buf@.len() as usize),
                IoHandle::Pipe { .. } => (r matches Err(IoError::Io(m)) && m@
                    == "cannot write synchronously to pipe"@) && *final(self) == *old(self),
                IoHandle::File { path, .. } => (r matches Err(IoError::Io(m)) && m@
                    == "cannot write synchronously to file: "@ + path@) && *final(self) == *old(self),
                IoHandle::HostStream { .. } => (r matches Err(IoError::Io(m)) && m@
                    == "cannot write synchronously to host stream"@) && *final(self) == *old(self),
            },
    {
        match self {
            IoHandle::Buffer { data, pos } => {
                overlay(data, *pos, buf);
                *pos = *pos + buf.len();
                Ok(buf.len())
            },
            IoHandle::Null => Ok(buf.len()),
            IoHandle::Pipe { .. } => Err(
                IoError::Io("cannot write synchronously to pipe".to_owned()),
            ),
            IoHandle::File { path, .. } => Err(
                IoError::Io(labelled("cannot write synchronously to file: ", path.as_str())),
            ),
            IoHandle::HostStream { .. } => Err(
                IoError::Io("cannot write synchronously to host stream".to_owned()),
            ),
        }
    }

    /// Write all bytes at once. Nothing is asked of a handle when there is nothing
    /// to write.
    pub fn write_all_sync(&mut self, buf: &[u8]) -> (r: std::result::Result<(), IoError>)
        requires
            *old(self) matches IoHandle::Buffer { pos, .. } ==> pos + buf@.len() <= usize::MAX,
        ensures
            final(self).same_kind(*old(self)),
            buf@.len() == 0 ==> r is Ok && *final(self) == *old(self),
            buf@.len() > 0 ==> match *old(self) {
                IoHandle::Buffer { data, pos } => r is Ok && final(self).held() == overlaid(
                    data@,
                    pos as int,
                    buf@,
                ) && final(self).spec_pos() == pos + buf@.len(),
                IoHandle::Null => r is Ok,
                IoHandle::Pipe { .. } => (r matches Err(IoError::Io(m)) && m@
                    == "cannot write synchronously to pipe"@) && *final(self) == *old(self),
                IoHandle::File { path, .. } => (r matches Err(IoError::Io(m)) && m@
                    == "cannot write synchronously to file: "@ + path@) && *final(self) == *old(self),
                IoHandle::HostStream { .. } => (r matches Err(IoError::Io(m)) && m@
                    == "cannot write synchronously to host stream"@) && *final(self) == *old(self),
            },
    {
        if buf.len() == 0 {
            return Ok(());
        }
        match self.write_sync(buf) {
            Ok(_) => Ok(()),
            Err(e) => Err(e),
        }
    }

    /// Write a line at once.
    pub fn println_sync(&mut self, s: &str) -> (r: std::result::Result<(), IoError>)
        requires
            *old(self) matches IoHandle::Buffer { pos, .. } ==> pos + vstd::utf8::encode_utf8(
                s@,
            ).len() + 1 <= usize::MAX,
        ensures
            final(self).same_kind(*old(self)),
            match *old(self) {
                IoHandle::Buffer { data, pos } => r is Ok && final(self).held() == overlaid(
                    data@,
                    pos as int,
                    vstd::utf8::encode_utf8(s@).push(10u8),
                ) && final(self).spec_pos() == pos + vstd::utf8::encode_utf8(s@).len() + 1,
                IoHandle::Null => r is Ok,
                IoHandle::Pipe { .. } => (r matches Err(IoError::Io(m)) && m@
                    == "cannot write synchronously to pipe"@) && *final(self) == *old(self),
                IoHandle::File { path, .. } => (r matches Err(IoError::Io(m)) && m@
                    == "cannot write synchronously to file: "@ + path@) && *final(self) == *old(self),
                IoHandle::HostStream { .. } => (r matches Err(IoError::Io(m)) && m@
                    == "cannot write synchronously to host stream"@) && *final(self) == *old(self),
            },
    {
        let mut line: Vec<u8> = Vec::new();
        append_all(&mut line, s.as_bytes());
        line.push(10u8);
        self.write_all_sync(&line)
    }

    /// Push data into a pipe: `taken` is how many bytes the pipe took. The null
    /// device takes all; no other handle takes any.
    pub fn push(&self, data: &[u8], taken: usize) -> (r: std::result::Result<usize, IoError>)
        ensures
            match *self {
                IoHandle::Pipe { .. } => r == Ok::<usize, IoError>(taken),
                IoHandle::Null => r == Ok::<usize, IoError>(data@.len() as usize),
                _ => r matches Err(IoError::Io(m)) && m@ == "push only works on pipes"@,
            },
    {
        match self {
            IoHandle::Pipe { .. } => Ok(taken),
            IoHandle::Null => Ok(data.len()),
            _ => Err(IoError::Io("push only works on pipes".to_owned())),
        }
    }

    /// Push all data into a pipe: `pushed` is what the pipe said.
    pub fn push_all(&self, pushed: std::result::Result<(), String>) -> (r: std::result::Result<
        (),
        IoError,
    >)
        ensures
            match *self {
                IoHandle::Pipe { .. } => match pushed {
                    Ok(_) => r is Ok,
                    Err(m) => r == Err::<(), IoError>(IoError::Io(m)),
                },
                IoHandle::Null => r is Ok,
                _ => r matches Err(IoError::Io(m)) && m@ == "push only works on pipes"@,
            },
    {
        match self {
            IoHandle::Pipe { .. } => match pushed {
                Ok(_) => Ok(()),
                Err(m) => Err(IoError::Io(m)),
            },
            IoHandle::Null => Ok(()),
            _ => Err(IoError::Io("push only works on pipes".to_owned())),
        }
    }
}

/// The most bytes of output that a host stream keeps when nothing else is asked
/// for.
pub const DEFAULT_HOST_BUFFER_SIZE: usize = 256;

// ---------------------------------------------------------------------------
// Laws
// ---------------------------------------------------------------------------

/// A read gives back what a write at the same position wrote.
pub proof fn law_read_after_write(data: Seq<u8>, pos: int, buf: Seq<u8>)
    requires
        0 <= pos,
    ensures
        window(overlaid(data, pos, buf), pos, buf.len() as int) == buf,
{
    assert(window(overlaid(data, pos, buf), pos, buf.len() as int) =~= buf);
}

/// A write changes nothing outside the bytes that it writes.
pub proof fn law_write_keeps_the_rest(data: Seq<u8>, pos: int, buf: Seq<u8>, i: int)
    requires
        0 <= pos,
        0 <= i < data.len(),
        i < pos || i >= pos + buf.len(),
    ensures
        overlaid(data, pos, buf).len() >= data.len(),
        overlaid(data, pos, buf)[i] == data[i],
{
}

/// Two writes, one behind the other, leave what one write of both leaves.
pub proof fn law_writes_join(data: Seq<u8>, pos: int, a: Seq<u8>, b: Seq<u8>)
    requires
        0 <= pos,
    ensures
        overlaid(overlaid(data, pos, a), pos + a.len(), b) == overlaid(data, pos, a + b),
{
    assert(overlaid(overlaid(data, pos, a), pos + a.len(), b) =~= overlaid(data, pos, a + b));
}

pub open spec fn concatenated(parts: Seq<Seq<u8>>) -> Seq<u8>
    decreases parts.len(),
{
    if parts.len() == 0 {
        Seq::empty()
    } else {
        parts[0] + concatenated(parts.skip(1))
    }
}

/// A host stream prints every byte of its output once and in order: the blocks it
/// prints and what still waits are the output. Less than `max` bytes wait, with no
/// newline among them.
pub proof fn law_nothing_is_lost(buffer: Seq<u8>, max: int)
    requires
        max > 0,
    ensures
        concatenated(blocks(buffer, max)) + left_waiting(buffer, max) == buffer,
        left_waiting(buffer, max).len() < max,
        !left_waiting(buffer, max).contains(10u8),
    decreases buffer.len(),
{
    lemma_find_from(buffer, 10u8, 0);
    match block_len(buffer, max) {
        Some(n) => {
            let rest = buffer.skip(n);
            law_nothing_is_lost(rest, max);
            let all = blocks(buffer, max);
            assert(all[0] == buffer.take(n));
            assert(all.skip(1) =~= blocks(rest, max));
            assert(concatenated(all) == buffer.take(n) + concatenated(blocks(rest, max)));
            assert(concatenated(all) + left_waiting(buffer, max) =~= buffer.take(n) + (concatenated(
                blocks(rest, max),
            ) + left_waiting(rest, max)));
            assert(buffer.take(n) + rest =~= buffer);
        },
        None => {
            assert(concatenated(blocks(buffer, max)) + buffer =~= buffer);
        },
    }
}

/// A read gives what stands at the position, as much as is asked for or is left, and nothing
/// behind the end.
pub proof fn law_reads(a: Seq<u8>, b: Seq<u8>, c: Seq<u8>, len: int)
    ensures
        window(a + b + c, a.len() as int, b.len() as int) == b,
        len >= b.len() ==> window(a + b, a.len() as int, len) == b,
        len >= 0 ==> window(a, a.len() as int, len).len() == 0,
{
    let all = a + b + c;
    assert(window(all, a.len() as int, b.len() as int) =~= b);
    if len >= b.len() {
        assert(window(a + b, a.len() as int, len) =~= b);
    }
}

/// A write behind the end fills the gap with zeros.
pub proof fn law_gaps_are_zeros(data: Seq<u8>, pos: int, buf: Seq<u8>, i: int)
    requires
        data.len() <= i < pos,
    ensures
        overlaid(data, pos, buf)[i] == 0,
        overlaid(data, pos, buf).len() == pos + buf.len(),
        overlaid(data, data.len() as int, buf) == data + buf,
{
    assert(overlaid(data, data.len() as int, buf) =~= data + buf);
}

/// What waits is printed to the end of its first line, and in blocks of the greatest size where
/// there is no line end.
pub proof fn law_blocks(line: Seq<u8>, rest: Seq<u8>, max: int)
    requires
        max > 0,
        forall|k: int| 0 <= k < line.len() ==> #[trigger] line[k] != 10u8,
    ensures
        blocks(line + seq![10u8] + rest, max) == seq![line + seq![10u8]] + blocks(rest, max),
        left_waiting(line + seq![10u8] + rest, max) == left_waiting(rest, max),
        line.len() < max ==> blocks(line, max).len() == 0 && left_waiting(line, max) == line,
        line.len() >= max ==> blocks(line, max) == seq![line.take(max)] + blocks(
            line.skip(max),
            max,
        ),
{
    let s = line + seq![10u8] + rest;
    let n = line.len() as int;
    assert forall|k: int| 0 <= k < n implies s[k] != 10u8 by {
        assert(s[k] == line[k]);
    }
    assert(s[n] == 10u8);
    crate::text::lemma_find_is(s, 10u8, 0, n);
    crate::text::lemma_find_is(line, 10u8, 0, n);
    assert(s.take(n + 1) =~= line + seq![10u8]);
    assert(s.skip(n + 1) =~= rest);
}

/// The streams of the host go by their names.
pub proof fn law_names_of_streams(max_size: usize, buffer: Vec<u8>)
    ensures
        (IoHandle::HostStream { stream: 0, buffer, max_size }).spec_description()
            == "IoHandle::HostStream("@ + "stdin"@ + ")"@,
        (IoHandle::HostStream { stream: 1, buffer, max_size }).spec_description()
            == "IoHandle::HostStream("@ + "stdout"@ + ")"@,
        (IoHandle::HostStream { stream: 2, buffer, max_size }).spec_description()
            == "IoHandle::HostStream("@ + "stderr"@ + ")"@,
{
}

} // verus!
