//! node - Execute JavaScript code
//!
//! The engine that runs the code is the host's. Here stands what is decided around
//! it: what the arguments ask for, which code is run, what is done for the code while
//! it waits, and what is said.
use serde_json::Value;
use vstd::prelude::*;
use vstd::string::StringExecFns;
use vstd::utf8::{
    decode_utf8, encode_utf8, encode_utf8_decode_utf8, encode_utf8_valid_utf8, valid_utf8,
};
use crate::base64::{encode, encoded_from};
use crate::commands::{write_text, written, Channel, Said, Start};
use crate::context::CmdContext;
use crate::error::{IoError, VfsError};
use crate::fs::Stat;
use crate::json::{
    bool_json, compact, fields, int_json, json_bytes, lemma_fields_push, list_json, null_json, object_json, open,
    parse_json_bytes, parsed_bytes, text_json, tree_of, trees, uint_json, write_bytes, write_compact,
    Shape, Tree,
};
use crate::num::{decimal, parse_usize, read_usize, signed_decimal};
use crate::path::resolved;
use crate::text::{
    append_all, chars_at, contains_chars, contains_sub, lemma_encode_joined, part, starts_with, str_eq, strings_from, strs, text_part,
    to_chars,
};
use crate::unicode::{lossy, lower, lowercase, read_lossy, read_utf8};

verus! {

/// Path to the tool prelude that defines global functions like `charge()`.
pub const PRELUDE_PATH: &'static str = "/tools/prelude.js";

pub const HELP_TEXT: &'static str = "Usage: node [options] [script.js] [arguments]\n\nExecute JavaScript code.\n\nOptions:\n  -e, --eval <code>          Evaluate code instead of running a file\n  -p, --print <code>         Evaluate and print result\n  --max-old-space-size=<MB>  Set memory limit in megabytes (default: 64)\n  -h, --help                 Show this help message\n  -v, --version              Show version\n  -                          Read script from stdin\n\nExamples:\n  node script.js                         Run a JavaScript file\n  node -e \"console.log('hi')\"            Evaluate inline code\n  node -p \"1 + 2\"                        Evaluate and print result\n  echo \"1+2\" | node -                    Read from stdin\n  node --max-old-space-size=128 app.js   Limit memory to 128MB";

// ---------------------------------------------------------------------------
// Arguments
// ---------------------------------------------------------------------------

/// Where the code comes from.
#[derive(Debug)]
pub enum Script {
    /// From the arguments.
    Code(String),
    /// From stdin.
    Stdin,
    /// From a file.
    File(String),
}

/// A node that runs.
#[derive(Debug)]
pub struct Node {
    /// Where the code comes from.
    pub script: Script,
    /// Whether the result is printed.
    pub print: bool,
    /// The arguments of the script.
    pub script_args: Vec<String>,
    /// The memory limit in megabytes.
    pub memory_limit_mb: Option<usize>,
}

/// What the arguments have given.
pub struct Given {
    pub eval: Option<Seq<char>>,
    pub print: Option<Seq<char>>,
    pub script: Option<Seq<char>>,
    pub script_args: Seq<Seq<char>>,
    pub limit: Option<nat>,
}

/// What ends node at once.
pub enum End {
    /// A text on stdout, and success.
    Shown(Seq<char>),
    /// A complaint, and failure.
    Complaint(Seq<char>),
}

impl Said {
    /// Whether this is said where node ends at once.
    pub open spec fn is_end(self, e: End) -> bool {
        match e {
            End::Shown(s) => self.says(s + seq!['\n'], Seq::empty(), 0),
            End::Complaint(s) => self.says(Seq::empty(), s + seq!['\n'], 1),
        }
    }
}

pub open spec fn limit_prefix() -> Seq<char> {
    "--max-old-space-size="@
}

/// What the arguments from `i` on make of what was given, or what ends node. The
/// first argument that is no option is the script; what follows is for the script.
pub open spec fn read_args(args: Seq<Seq<char>>, i: int, g: Given) -> Result<Given, End>
    decreases args.len() - i,
{
    if i < 0 || i >= args.len() {
        Ok(g)
    } else {
        let a = args[i];
        if a == "-e"@ || a == "--eval"@ {
            if i + 1 < args.len() {
                read_args(args, i + 2, Given { eval: Some(args[i + 1]), ..g })
            } else {
                Err(End::Complaint("node: -e requires an argument"@))
            }
        } else if a == "-p"@ || a == "--print"@ {
            if i + 1 < args.len() {
                read_args(args, i + 2, Given { print: Some(args[i + 1]), ..g })
            } else {
                Err(End::Complaint("node: -p requires an argument"@))
            }
        } else if a == "-h"@ || a == "--help"@ {
            Err(End::Shown(HELP_TEXT@))
        } else if a == "-v"@ || a == "--version"@ {
            Err(End::Shown("node v0.1.0 (amla-shell QuickJS backend)"@))
        } else if starts_with(a, limit_prefix()) {
            let value = a.skip(limit_prefix().len() as int);
            match read_usize(value) {
                Some(n) => read_args(args, i + 1, Given { limit: Some(n), ..g }),
                None => Err(End::Complaint("node: invalid memory limit: "@ + value)),
            }
        } else if a.len() > 0 && a[0] == '-' && a != "-"@ {
            Err(End::Complaint("node: unknown option: "@ + a))
        } else {
            Ok(Given { script: Some(a), script_args: args.skip(i + 1), ..g })
        }
    }
}

/// What is given before the arguments are read.
pub open spec fn nothing() -> Given {
    Given { eval: None, print: None, script: None, script_args: Seq::empty(), limit: None }
}

/// Whether this is the node that was asked for. Code to evaluate comes before code to
/// print, and that before a script.
pub open spec fn is_node(n: Node, g: Given) -> bool {
    &&& n.print == (g.print is Some)
    &&& strs(n.script_args@) == g.script_args
    &&& match (n.memory_limit_mb, g.limit) {
        (Some(a), Some(b)) => a == b,
        (None, None) => true,
        _ => false,
    }
    &&& match (g.eval, g.print, g.script) {
        (Some(c), _, _) => n.script matches Script::Code(s) && s@ == c,
        (None, Some(c), _) => n.script matches Script::Code(s) && s@ == c,
        (None, None, Some(p)) => if p == "-"@ {
            n.script is Stdin
        } else {
            n.script matches Script::File(s) && s@ == p
        },
        (None, None, None) => false,
    }
}

/// The text behind a prefix.
fn strip(s: &Vec<char>, prefix: &str) -> (r: Option<Vec<char>>)
    ensures
        match r {
            Some(t) => starts_with(s@, prefix@) && t@ == s@.skip(prefix@.len() as int),
            None => !starts_with(s@, prefix@),
        },
{
    let p = to_chars(prefix);
    if s.len() >= p.len() && chars_at(s, &p, 0) {
        let t = part(s, p.len(), s.len());
        proof {
            assert(s@.subrange(0, p@.len() as int) =~= s@.take(p@.len() as int));
            assert(t@ =~= s@.skip(p@.len() as int));
        }
        Some(t)
    } else {
        proof {
            if starts_with(s@, p@) {
                assert(s@.subrange(0, p@.len() as int) =~= s@.take(p@.len() as int));
            }
        }
        None
    }
}

fn complaint(label: &str, text: &str) -> (r: Start<Node>)
    ensures
        r matches Start::Done(said) && said.is_end(End::Complaint(label@ + text@)),
{
    let mut m = label.to_owned();
    m.append(text);
    Start::Done(Said::complaint(m.as_str(), 1))
}

fn shown(text: &str) -> (r: Start<Node>)
    ensures
        r matches Start::Done(said) && said.is_end(End::Shown(text@)),
{
    let mut out = text.to_owned();
    out.push('\n');
    proof {
        assert(out@ =~= text@ + seq!['\n']);
    }
    Start::Done(Said { out, err: String::new(), code: 0 })
}

pub open spec fn view_opt(s: Option<String>) -> Option<Seq<char>> {
    match s {
        Some(t) => Some(t@),
        None => None,
    }
}

pub open spec fn nat_opt(n: Option<usize>) -> Option<nat> {
    match n {
        Some(m) => Some(m as nat),
        None => None,
    }
}

/// `node [options] [script.js] [arguments]`
///
/// Execute JavaScript code.
///
/// # Options
///
/// - `-e, --eval <code>` - Evaluate code instead of running a file
/// - `-p, --print <code>` - Evaluate and print result
/// - `--max-old-space-size=<MB>` - Set memory limit in megabytes
/// - `-` - Read script from stdin
///
/// Without code and script, the help is shown.
pub fn run(argv: &Vec<String>) -> (r: Start<Node>)
    ensures
        match read_args(strs(argv@), 1, nothing()) {
            Err(e) => r matches Start::Done(said) && said.is_end(e),
            Ok(g) => if g.eval is None && g.print is None && g.script is None {
                r matches Start::Done(said) && said.is_end(End::Shown(HELP_TEXT@))
            } else {
                r matches Start::Go(n) && is_node(n, g)
            },
        },
{
    let ghost args = strs(argv@);
    let ghost whole = read_args(args, 1, nothing());
    let mut eval: Option<String> = None;
    let mut print: Option<String> = None;
    let mut limit: Option<usize> = None;
    let mut script: Option<String> = None;
    let mut script_args: Vec<String> = Vec::new();
    let mut i: usize = 1;
    let mut going = true;
    proof {
        assert(strs(script_args@) =~= Seq::<Seq<char>>::empty());
    }
    while going && i < argv.len()
        invariant
            args == strs(argv@),
            whole == read_args(strs(argv@), 1, nothing()),
            1 <= i,
            ({
                let g = Given {
                    eval: view_opt(eval),
                    print: view_opt(print),
                    script: view_opt(script),
                    script_args: strs(script_args@),
                    limit: nat_opt(limit),
                };
                if going {
                    script is None && script_args@.len() == 0 && whole == read_args(
                        args,
                        i as int,
                        g,
                    )
                } else {
                    whole == Ok::<Given, End>(g)
                }
            }),
        decreases argv@.len() - i, going as int,
    {
        proof {
            assert(args[i as int] == argv@[i as int]@);
            if i + 1 < argv@.len() {
                assert(args[i + 1] == argv@[i + 1]@);
            }
        }
        let arg = argv[i].as_str();
        let cs = to_chars(arg);
        if str_eq(arg, "-e") || str_eq(arg, "--eval") {
            if i + 1 >= argv.len() {
                return Start::Done(Said::complaint("node: -e requires an argument", 1));
            }
            eval = Some(argv[i + 1].clone());
            i += 2;
        } else if str_eq(arg, "-p") || str_eq(arg, "--print") {
            if i + 1 >= argv.len() {
                return Start::Done(Said::complaint("node: -p requires an argument", 1));
            }
            print = Some(argv[i + 1].clone());
            i += 2;
        } else if str_eq(arg, "-h") || str_eq(arg, "--help") {
            return shown(HELP_TEXT);
        } else if str_eq(arg, "-v") || str_eq(arg, "--version") {
            return shown("node v0.1.0 (amla-shell QuickJS backend)");
        } else {
            match strip(&cs, "--max-old-space-size=") {
                Some(value) => match parse_usize(&value) {
                    Some(n) => {
                        limit = Some(n);
                        i += 1;
                    },
                    None => {
                        let text = text_part(&value, 0, value.len());
                        proof {
                            assert(value@.subrange(0, value@.len() as int) =~= value@);
                        }
                        return complaint("node: invalid memory limit: ", text.as_str());
                    },
                },
                None => {
                    if cs.len() > 0 && cs[0] == '-' && !str_eq(arg, "-") {
                        return complaint("node: unknown option: ", arg);
                    }
                    script = Some(argv[i].clone());
                    script_args = strings_from(argv, i + 1);
                    going = false;
                },
            }
        }
    }
    let show = print.is_some();
    let source = match eval {
        Some(code) => Script::Code(code),
        None => match print {
            Some(code) => Script::Code(code),
            None => match script {
                Some(path) => if str_eq(path.as_str(), "-") {
                    Script::Stdin
                } else {
                    Script::File(path)
                },
                None => {
                    return shown(HELP_TEXT);
                },
            },
        },
    };
    Start::Go(Node { script: source, print: show, script_args, memory_limit_mb: limit })
}

// ---------------------------------------------------------------------------
// Code
// ---------------------------------------------------------------------------

/// The memory limit in bytes.
pub fn memory_limit(mb: usize) -> (r: usize)
    requires
        mb * 1048576 <= usize::MAX,
    ensures
        r == mb * 1048576,
{
    mb * 1024 * 1024
}

/// The code of a script.
pub fn script_code(bytes: &[u8]) -> (r: String)
    ensures
        r@ == lossy(bytes@),
{
    read_lossy(bytes)
}

/// What is said of a script that cannot be opened.
pub fn not_opened(path: &str, e: &IoError) -> (r: Said)
    ensures
        r.says(
            Seq::empty(),
            "node: cannot open '"@ + path@ + "': "@ + e.spec_message() + "\n"@,
            1,
        ),
{
    let mut err = "node: cannot open '".to_owned();
    err.append(path);
    err.append("': ");
    let m = e.message();
    err.append(m.as_str());
    err.append("\n");
    Said { out: String::new(), err, code: 1 }
}

/// Code in a function that can wait, and that reports what it does not catch. Code
/// whose result is printed stays as it is.
pub open spec fn wrapped(code: Seq<char>, print: bool) -> Seq<char> {
    if print {
        code
    } else {
        "(async () => {\n"@ + code
            + "\n})().catch(e => {const msg = (e.name ? e.name + ': ' : '') + (e.message || String(e));console.error(e.stack ? msg + '\\n' + e.stack : msg);});"@
    }
}

/// Wraps code in a function that can wait, unless its result is printed.
pub fn wrapped_code(code: &str, print: bool) -> (r: String)
    ensures
        r@ == wrapped(code@, print),
{
    if print {
        return code.to_owned();
    }
    let mut r = "(async () => {\n".to_owned();
    r.append(code);
    r.append("\n})().catch(e => {const msg = (e.name ? e.name + ': ' : '') + (e.message || String(e));console.error(e.stack ? msg + '\\n' + e.stack : msg);});");
    r
}

/// What can go wrong in the engine.
#[derive(Debug, Clone, Copy, PartialEq, Eq, Structural)]
pub enum Step {
    /// It cannot be made.
    Create,
    /// The prelude does not load.
    Prelude,
    /// The code fails.
    Execute,
    /// A promise cannot be resolved.
    Resolve,
    /// A promise cannot be rejected.
    Reject,
}

impl Step {
    /// How the complaint starts.
    pub open spec fn label(self) -> Seq<char> {
        match self {
            Step::Create => "node: failed to create runtime: "@,
            Step::Prelude => "node: failed to load prelude: "@,
            Step::Execute => "node: "@,
            Step::Resolve => "node: failed to resolve promise: "@,
            Step::Reject => "node: failed to reject promise: "@,
        }
    }

    /// The line that is written where something goes wrong.
    pub fn failed(self, message: &str) -> (r: String)
        ensures
            r@ == self.label() + message@ + "\n"@,
    {
        let label = match self {
            Step::Create => "node: failed to create runtime: ",
            Step::Prelude => "node: failed to load prelude: ",
            Step::Execute => "node: ",
            Step::Resolve => "node: failed to resolve promise: ",
            Step::Reject => "node: failed to reject promise: ",
        };
        let mut line = label.to_owned();
        line.append(message);
        line.append("\n");
        line
    }
}

/// The text of a result.
pub open spec fn result_text(t: Tree) -> Seq<char> {
    match t {
        Tree::Null => "undefined"@,
        Tree::Text(s) => s,
        _ => match compact(t) {
            Some(s) => s,
            None => "undefined"@,
        },
    }
}

/// The line of a result.
pub fn result_line(value: Value) -> (r: String)
    ensures
        r@ == result_text(tree_of(value)) + "\n"@,
{
    let text = write_compact(&value);
    let mut line = match open(value) {
        Shape::Null => "undefined".to_owned(),
        Shape::Text(s) => s,
        _ => match text {
            Some(s) => s,
            None => "undefined".to_owned(),
        },
    };
    line.append("\n");
    line
}

/// A line that the code wrote.
#[derive(Debug)]
pub struct ConsoleOutput {
    pub level: String,
    pub message: String,
}

/// Where a line of the code goes: errors and warnings to stderr, all others to stdout.
pub open spec fn channel_of(level: Seq<char>) -> Channel {
    if level == "error"@ || level == "warn"@ {
        Channel::Stderr
    } else {
        Channel::Stdout
    }
}

/// What is written of the lines of the code.
pub open spec fn console(lines: Seq<ConsoleOutput>) -> Seq<(Channel, Seq<char>)> {
    lines.map_values(|l: ConsoleOutput| (channel_of(l.level@), l.message@ + "\n"@))
}

/// Flush console output to appropriate streams.
pub fn flush_console(lines: &Vec<ConsoleOutput>) -> (r: Vec<(Channel, String)>)
    ensures
        written(r@) == console(lines@),
{
    let mut texts: Vec<(Channel, String)> = Vec::new();
    let mut i: usize = 0;
    proof {
        assert(written(texts@) =~= console(lines@).take(0));
    }
    while i < lines.len()
        invariant
            i <= lines@.len(),
            written(texts@) == console(lines@).take(i as int),
        decreases lines@.len() - i,
    {
        let level = lines[i].level.as_str();
        let to = if str_eq(level, "error") || str_eq(level, "warn") {
            Channel::Stderr
        } else {
            Channel::Stdout
        };
        let mut line = lines[i].message.clone();
        line.append("\n");
        write_text(&mut texts, to, line);
        proof {
            assert(console(lines@).take(i + 1) =~= console(lines@).take(i as int).push(
                console(lines@)[i as int],
            ));
        }
        i += 1;
    }
    proof {
        assert(console(lines@).take(i as int) =~= console(lines@));
    }
    texts
}

// ---------------------------------------------------------------------------
// Errors
// ---------------------------------------------------------------------------

/// The error code of an error of the filesystem.
pub open spec fn vfs_errno(e: VfsError) -> Seq<char> {
    match e {
        VfsError::NotFound(_) => "ENOENT"@,
        VfsError::PermissionDenied(_) => "EACCES"@,
        VfsError::NotADirectory(_) => "ENOTDIR"@,
        VfsError::NotAFile(_) => "EISDIR"@,
        VfsError::AlreadyExists(_) => "EEXIST"@,
        VfsError::InvalidPath(_) => "EINVAL"@,
    }
}

/// Convert a VFS error to appropriate errno code.
pub fn vfs_error_to_errno(e: &VfsError) -> (r: &'static str)
    ensures
        r@ == vfs_errno(*e),
{
    match e {
        VfsError::NotFound(_) => "ENOENT",
        VfsError::PermissionDenied(_) => "EACCES",
        VfsError::NotADirectory(_) => "ENOTDIR",
        VfsError::NotAFile(_) => "EISDIR",
        VfsError::AlreadyExists(_) => "EEXIST",
        VfsError::InvalidPath(_) => "EINVAL",
    }
}

/// The error code that the words of a message tell.
pub open spec fn errno_of(m: Seq<char>) -> Seq<char> {
    if contains_sub(m, "not found"@) {
        "ENOENT"@
    } else if contains_sub(m, "permission"@) {
        "EACCES"@
    } else if contains_sub(m, "not a directory"@) {
        "ENOTDIR"@
    } else if contains_sub(m, "not a file"@) || contains_sub(m, "is a directory"@) {
        "EISDIR"@
    } else if contains_sub(m, "exists"@) {
        "EEXIST"@
    } else {
        "EIO"@
    }
}

fn has_words(m: &Vec<char>, words: &str) -> (r: bool)
    ensures
        r == contains_sub(m@, words@),
{
    let p = to_chars(words);
    contains_chars(m, &p)
}

/// The error code of an error. Of an error that only its message describes, the words
/// of the message tell it.
pub open spec fn io_errno(e: IoError) -> Seq<char> {
    match e {
        IoError::NotFound(_) => "ENOENT"@,
        IoError::IsDir(_) => "EISDIR"@,
        IoError::NotDir(_) => "ENOTDIR"@,
        IoError::Permission(_) => "EACCES"@,
        IoError::Exists(_) => "EEXIST"@,
        IoError::InvalidSeek => "EIO"@,
        IoError::Vfs(v, _) => vfs_errno(v),
        IoError::Io(_) => errno_of(lower(e.spec_message())),
    }
}

/// Convert an IoError to appropriate errno code.
pub fn io_error_to_errno(e: &IoError) -> (r: &'static str)
    ensures
        r@ == io_errno(*e),
{
    match e {
        IoError::NotFound(_) => "ENOENT",
        IoError::IsDir(_) => "EISDIR",
        IoError::NotDir(_) => "ENOTDIR",
        IoError::Permission(_) => "EACCES",
        IoError::Exists(_) => "EEXIST",
        IoError::InvalidSeek => "EIO",
        IoError::Vfs(v, _) => vfs_error_to_errno(v),
        IoError::Io(_) => {
            let text = e.message();
            let text = lowercase(text.as_str());
            let m = to_chars(text.as_str());
            if has_words(&m, "not found") {
                "ENOENT"
            } else if has_words(&m, "permission") {
                "EACCES"
            } else if has_words(&m, "not a directory") {
                "ENOTDIR"
            } else if has_words(&m, "not a file") || has_words(&m, "is a directory") {
                "EISDIR"
            } else if has_words(&m, "exists") {
                "EEXIST"
            } else {
                "EIO"
            }
        },
    }
}

/// An error code and a message.
pub open spec fn coded(code: Seq<char>, message: Seq<char>) -> Seq<char> {
    code + ": "@ + message
}

fn coded_text(code: &str, message: &str) -> (r: String)
    ensures
        r@ == coded(code@, message@),
{
    let mut r = code.to_owned();
    r.append(": ");
    r.append(message);
    r
}

// ---------------------------------------------------------------------------
// Operations
// ---------------------------------------------------------------------------

/// What the code waits for.
pub enum OpType {
    Sleep { delay_ms: u64 },
    FsRead { path: String, encoding: Option<String> },
    FsWrite { path: String, data: String, create_dirs: bool, append: bool },
    FsReadDir { path: String },
    FsStat { path: String },
    FsExists { path: String },
    FsUnlink { path: String },
    FsMkdir { path: String, recursive: bool },
    ToolCall { tool: String, params: Value },
    Fetch { url: String },
    MemoryRead { key: String },
    MemoryWrite { key: String },
    MemoryDelete { key: String },
    Spawn,
    LlmCall { model: String },
    Shell { command: String },
}

/// What is done for the code.
pub enum Action {
    /// Wait for so many milliseconds.
    Sleep(u64),
    /// Read a file.
    Read(String),
    /// Write a file: what it held stays before the data where it is appended. The
    /// directory is made first where there is one; whether that succeeds does not
    /// matter.
    Write { path: String, make: Option<String>, data: String, append: bool },
    /// List a directory.
    ReadDir(String),
    /// Look a path up.
    Stat(String),
    /// Test whether a path exists.
    Exists(String),
    /// Remove a file.
    Remove(String),
    /// Make a directory, with those above it or without.
    Mkdir(String, bool),
    /// Call the host: the method and its parameters.
    Call(String, Vec<u8>),
    /// Run a command in a shell of its own.
    Shell(String),
    /// Nothing: it fails at once.
    Refuse(String),
}

/// What is done for the code, as mathematics has it.
pub enum Doing {
    Sleep(nat),
    Read(Seq<char>),
    Write(Seq<char>, Option<Seq<char>>, Seq<char>, bool),
    ReadDir(Seq<char>),
    Stat(Seq<char>),
    Exists(Seq<char>),
    Remove(Seq<char>),
    Mkdir(Seq<char>, bool),
    Call(Seq<char>, Seq<u8>),
    Shell(Seq<char>),
    Refuse(Seq<char>),
}

impl View for Action {
    type V = Doing;

    open spec fn view(&self) -> Doing {
        match self {
            Action::Sleep(ms) => Doing::Sleep(*ms as nat),
            Action::Read(p) => Doing::Read(p@),
            Action::Write { path, make, data, append } => Doing::Write(
                path@,
                view_opt(*make),
                data@,
                *append,
            ),
            Action::ReadDir(p) => Doing::ReadDir(p@),
            Action::Stat(p) => Doing::Stat(p@),
            Action::Exists(p) => Doing::Exists(p@),
            Action::Remove(p) => Doing::Remove(p@),
            Action::Mkdir(p, all) => Doing::Mkdir(p@, *all),
            Action::Call(m, b) => Doing::Call(m@, b@),
            Action::Shell(c) => Doing::Shell(c@),
            Action::Refuse(m) => Doing::Refuse(m@),
        }
    }
}

/// The last slash among the first `n` characters of a path.
pub open spec fn last_slash(path: Seq<char>, n: int) -> int
    decreases n,
{
    if n <= 0 || n > path.len() {
        -1
    } else if path[n - 1] == '/' {
        n - 1
    } else {
        last_slash(path, n - 1)
    }
}

/// The directory above an absolute path, where it is not the root.
pub open spec fn above(path: Seq<char>) -> Option<Seq<char>> {
    let k = last_slash(path, path.len() as int);
    if k > 0 {
        Some(path.take(k))
    } else {
        None
    }
}

fn above_of(path: &str) -> (r: Option<String>)
    ensures
        view_opt(r) == above(path@),
{
    let cs = to_chars(path);
    let mut n = cs.len();
    while n > 0
        invariant
            n <= cs@.len(),
            cs@ == path@,
            last_slash(cs@, n as int) == last_slash(cs@, cs@.len() as int),
        decreases n,
    {
        if cs[n - 1] == '/' {
            if n == 1 {
                return None;
            }
            let s = text_part(&cs, 0, n - 1);
            proof {
                assert(s@ =~= path@.take(n - 1));
            }
            return Some(s);
        }
        n -= 1;
    }
    None
}

/// What is said of a thing that is not done here.
pub open spec fn unsupported(what: Seq<char>, name: Seq<char>) -> Seq<char> {
    what + " '"@ + name + "' not supported in standalone mode"@
}

fn unsupported_text(what: &str, name: &str) -> (r: String)
    ensures
        r@ == unsupported(what@, name@),
{
    let mut r = what.to_owned();
    r.append(" '");
    r.append(name);
    r.append("' not supported in standalone mode");
    r
}

/// What is done for an operation.
pub open spec fn doing(ctx: CmdContext, op: OpType) -> Doing {
    match op {
        OpType::Sleep { delay_ms } => Doing::Sleep(delay_ms as nat),
        OpType::FsRead { path, .. } => Doing::Read(ctx.absolute(path@)),
        OpType::FsWrite { path, data, create_dirs, append } => Doing::Write(
            ctx.absolute(path@),
            if create_dirs {
                above(ctx.absolute(path@))
            } else {
                None
            },
            data@,
            append,
        ),
        OpType::FsReadDir { path } => Doing::ReadDir(ctx.absolute(path@)),
        OpType::FsStat { path } => Doing::Stat(ctx.absolute(path@)),
        OpType::FsExists { path } => Doing::Exists(ctx.absolute(path@)),
        OpType::FsUnlink { path } => Doing::Remove(ctx.absolute(path@)),
        OpType::FsMkdir { path, recursive } => Doing::Mkdir(ctx.absolute(path@), recursive),
        OpType::ToolCall { tool, params } => Doing::Call(
            tool@,
            match json_bytes(tree_of(params)) {
                Some(b) => b,
                None => Seq::empty(),
            },
        ),
        OpType::Fetch { url } => Doing::Refuse(unsupported("fetch"@, url@)),
        OpType::MemoryRead { key } => Doing::Refuse(unsupported("memory read"@, key@)),
        OpType::MemoryWrite { key } => Doing::Refuse(unsupported("memory write"@, key@)),
        OpType::MemoryDelete { key } => Doing::Refuse(unsupported("memory delete"@, key@)),
        OpType::Spawn => Doing::Refuse("spawn not supported in standalone mode"@),
        OpType::LlmCall { model } => Doing::Refuse(unsupported("LLM call"@, model@)),
        OpType::Shell { command } => Doing::Shell(command@),
    }
}

/// Process a pending operation: what is done for it.
pub fn process_op(ctx: &CmdContext, op: &OpType) -> (r: Action)
    ensures
        r@ == doing(*ctx, *op),
{
    match op {
        OpType::Sleep { delay_ms } => Action::Sleep(*delay_ms),
        OpType::FsRead { path, encoding: _ } => Action::Read(ctx.resolve_path(path.as_str())),
        OpType::FsWrite { path, data, create_dirs, append } => {
            let resolved = ctx.resolve_path(path.as_str());
            let make = if *create_dirs {
                above_of(resolved.as_str())
            } else {
                None
            };
            Action::Write { path: resolved, make, data: data.clone(), append: *append }
        },
        OpType::FsReadDir { path } => Action::ReadDir(ctx.resolve_path(path.as_str())),
        OpType::FsStat { path } => Action::Stat(ctx.resolve_path(path.as_str())),
        OpType::FsExists { path } => Action::Exists(ctx.resolve_path(path.as_str())),
        OpType::FsUnlink { path } => Action::Remove(ctx.resolve_path(path.as_str())),
        OpType::FsMkdir { path, recursive } => Action::Mkdir(
            ctx.resolve_path(path.as_str()),
            *recursive,
        ),
        OpType::ToolCall { tool, params } => {
            let bytes = match write_bytes(params) {
                Some(b) => b,
                None => {
                    let none: Vec<u8> = Vec::new();
                    proof {
                        assert(none@ =~= Seq::<u8>::empty());
                    }
                    none
                },
            };
            Action::Call(tool.clone(), bytes)
        },
        OpType::Fetch { url } => Action::Refuse(unsupported_text("fetch", url.as_str())),
        OpType::MemoryRead { key } => Action::Refuse(unsupported_text("memory read", key.as_str())),
        OpType::MemoryWrite { key } => Action::Refuse(
            unsupported_text("memory write", key.as_str()),
        ),
        OpType::MemoryDelete { key } => Action::Refuse(
            unsupported_text("memory delete", key.as_str()),
        ),
        OpType::Spawn => Action::Refuse("spawn not supported in standalone mode".to_owned()),
        OpType::LlmCall { model } => Action::Refuse(unsupported_text("LLM call", model.as_str())),
        OpType::Shell { command } => Action::Shell(command.clone()),
    }
}

// ---------------------------------------------------------------------------
// Replies
// ---------------------------------------------------------------------------

/// What the code gets: a value, or the message of a failure.
pub type Reply = Result<Value, String>;

/// Whether this is what the code gets.
pub open spec fn replies(r: Reply, t: Result<Tree, Seq<char>>) -> bool {
    match (r, t) {
        (Ok(v), Ok(u)) => tree_of(v) == u,
        (Err(e), Err(m)) => e@ == m,
        _ => false,
    }
}

/// What the code gets when it has waited.
pub fn slept(result: Result<(), String>) -> (r: Reply)
    ensures
        replies(
            r,
            match result {
                Ok(_) => Ok(Tree::Null),
                Err(e) => Err("sleep failed: "@ + e@),
            },
        ),
{
    match result {
        Ok(_) => Ok(null_json()),
        Err(e) => {
            let mut m = "sleep failed: ".to_owned();
            m.append(e.as_str());
            Err(m)
        },
    }
}

/// What the code gets of the bytes of a file: in base 64, as a list of numbers, or as
/// text.
pub open spec fn content(bytes: Seq<u8>, encoding: Option<Seq<char>>) -> Tree {
    if encoding == Some("base64"@) {
        Tree::Text(encoded_from(bytes, 0))
    } else if encoding == Some("buffer"@) || encoding == Some("binary"@) {
        Tree::List(bytes.map_values(|b: u8| Tree::Number(signed_decimal(b as int))))
    } else if valid_utf8(bytes) {
        Tree::Text(decode_utf8(bytes))
    } else {
        Tree::Text(lossy(bytes))
    }
}

fn byte_list(bytes: &Vec<u8>) -> (r: Value)
    ensures
        tree_of(r) == Tree::List(
            bytes@.map_values(|b: u8| Tree::Number(signed_decimal(b as int))),
        ),
{
    let mut vs: Vec<Value> = Vec::new();
    let mut i: usize = 0;
    while i < bytes.len()
        invariant
            i <= bytes@.len(),
            vs@.len() == i,
            forall|k: int|
                0 <= k < i ==> tree_of(#[trigger] vs@[k]) == Tree::Number(
                    signed_decimal(bytes@[k] as int),
                ),
        decreases bytes@.len() - i,
    {
        vs.push(int_json(bytes[i] as i64));
        i += 1;
    }
    proof {
        assert(trees(vs@) =~= bytes@.map_values(|b: u8| Tree::Number(signed_decimal(b as int))));
    }
    list_json(vs)
}

/// What an error of a file operation is told as.
pub open spec fn io_told(e: IoError) -> Seq<char> {
    coded(io_errno(e), e.spec_message())
}

fn io_text(e: &IoError) -> (r: String)
    ensures
        r@ == io_told(*e),
{
    let m = e.message();
    coded_text(io_error_to_errno(e), m.as_str())
}

/// What the code gets of a file that was read.
pub fn file_read(result: Result<Vec<u8>, IoError>, encoding: Option<&str>) -> (r: Reply)
    ensures
        replies(
            r,
            match result {
                Ok(bytes) => Ok(
                    content(
                        bytes@,
                        match encoding {
                            Some(s) => Some(s@),
                            None => None,
                        },
                    ),
                ),
                Err(e) => Err(io_told(e)),
            },
        ),
{
    match result {
        Ok(bytes) => {
            let name: &str = match encoding {
                Some(s) => s,
                None => "utf-8",
            };
            proof {
                reveal_strlit("utf-8");
                reveal_strlit("base64");
                reveal_strlit("buffer");
                reveal_strlit("binary");
                assert("utf-8"@.len() == 5);
            }
            if str_eq(name, "base64") {
                Ok(text_json(encode(bytes.as_slice())))
            } else if str_eq(name, "buffer") || str_eq(name, "binary") {
                Ok(byte_list(&bytes))
            } else {
                let text = read_lossy(bytes.as_slice());
                match read_utf8(bytes) {
                    Some(s) => Ok(text_json(s)),
                    None => Ok(text_json(text)),
                }
            }
        },
        Err(e) => Err(io_text(&e)),
    }
}

/// What the code gets when a file was written or removed, or a directory made.
pub fn changed(result: Result<(), IoError>) -> (r: Reply)
    ensures
        replies(
            r,
            match result {
                Ok(_) => Ok(Tree::Null),
                Err(e) => Err(io_told(e)),
            },
        ),
{
    match result {
        Ok(_) => Ok(null_json()),
        Err(e) => Err(io_text(&e)),
    }
}

/// The bytes that a file is written with: behind what it held, where they are
/// appended. A file that cannot be read held nothing.
pub open spec fn stored(held: Option<Seq<u8>>, data: Seq<char>, append: bool) -> Seq<u8> {
    match held {
        Some(b) if append => b + encode_utf8(data),
        _ => encode_utf8(data),
    }
}

/// The bytes that a file is written with. What it held counts only where the data is
/// appended.
pub fn new_content(held: Option<Vec<u8>>, data: &str, append: bool) -> (r: Vec<u8>)
    ensures
        r@ == stored(
            match held {
                Some(b) => Some(b@),
                None => None,
            },
            data@,
            append,
        ),
{
    let mut r = match held {
        Some(b) if append => b,
        _ => Vec::new(),
    };
    let ghost start = r@;
    append_all(&mut r, data.as_bytes());
    proof {
        assert(r@ =~= start + encode_utf8(data@));
        assert(Seq::<u8>::empty() + encode_utf8(data@) =~= encode_utf8(data@));
    }
    r
}

/// What the code wrote to a file is what it reads from there, behind the text that the
/// file held where it was appended. Both operations act on the same path, also where it
/// is written from the working directory.
pub proof fn law_written_is_read(
    ctx: CmdContext,
    path: String,
    data: String,
    create_dirs: bool,
    append: bool,
    held: Option<Seq<u8>>,
    text: Seq<char>,
)
    requires
        match held {
            Some(b) => b == encode_utf8(text),
            None => text.len() == 0,
        },
    ensures
        doing(ctx, OpType::FsRead { path, encoding: None }) == Doing::Read(ctx.absolute(path@)),
        doing(ctx, OpType::FsWrite { path, data, create_dirs, append }) matches Doing::Write(
            p,
            _,
            d,
            a,
        ) && p == ctx.absolute(path@) && d == data@ && a == append,
        content(stored(held, data@, append), None) == Tree::Text(
            if append {
                text + data@
            } else {
                data@
            },
        ),
{
    broadcast use {encode_utf8_valid_utf8, encode_utf8_decode_utf8};

    lemma_encode_joined(text, data@);
    if held is None {
        assert(text + data@ =~= data@);
    }
}

/// What the code gets of a directory that was listed: the names.
pub fn dir_read(result: Result<Vec<String>, (VfsError, String)>) -> (r: Reply)
    ensures
        replies(
            r,
            match result {
                Ok(names) => Ok(
                    Tree::List(strs(names@).map_values(|s: Seq<char>| Tree::Text(s))),
                ),
                Err((e, m)) => Err(coded(vfs_errno(e), m@)),
            },
        ),
{
    match result {
        Ok(names) => {
            let ghost want = strs(names@).map_values(|s: Seq<char>| Tree::Text(s));
            let mut vs: Vec<Value> = Vec::new();
            let mut i: usize = 0;
            while i < names.len()
                invariant
                    i <= names@.len(),
                    vs@.len() == i,
                    forall|k: int|
                        0 <= k < i ==> tree_of(#[trigger] vs@[k]) == Tree::Text(names@[k]@),
                decreases names@.len() - i,
            {
                vs.push(text_json(names[i].clone()));
                i += 1;
            }
            proof {
                assert(trees(vs@) =~= want);
            }
            Ok(list_json(vs))
        },
        Err((e, m)) => Err(coded_text(vfs_error_to_errno(&e), m.as_str())),
    }
}

/// What the code gets of a path that was looked up.
pub open spec fn stat_tree(s: Stat) -> Tree {
    Tree::Object(
        Map::empty().insert("size"@, Tree::Number(decimal(s.size as nat))).insert(
            "isDirectory"@,
            Tree::Bool(s.is_dir),
        ).insert("isFile"@, Tree::Bool(s.is_file)).insert(
            "isSymbolicLink"@,
            Tree::Bool(false),
        ).insert("modifiedAt"@, Tree::Number(signed_decimal(0))),
    )
}

fn push_field(ps: &mut Vec<(String, Value)>, name: &str, v: Value)
    ensures
        fields(final(ps)@) == fields(old(ps)@).insert(name@, tree_of(v)),
{
    let p = (name.to_owned(), v);
    proof {
        lemma_fields_push(ps@, p);
    }
    ps.push(p);
}

/// What the code gets of a path that was looked up.
pub fn stated(result: Result<Stat, (VfsError, String)>) -> (r: Reply)
    ensures
        replies(
            r,
            match result {
                Ok(s) => Ok(stat_tree(s)),
                Err((e, m)) => Err(coded(vfs_errno(e), m@)),
            },
        ),
{
    match result {
        Ok(s) => {
            let mut ps: Vec<(String, Value)> = Vec::new();
            push_field(&mut ps, "size", uint_json(s.size));
            push_field(&mut ps, "isDirectory", bool_json(s.is_dir));
            push_field(&mut ps, "isFile", bool_json(s.is_file));
            push_field(&mut ps, "isSymbolicLink", bool_json(false));
            push_field(&mut ps, "modifiedAt", int_json(0));
            Ok(object_json(ps))
        },
        Err((e, m)) => Err(coded_text(vfs_error_to_errno(&e), m.as_str())),
    }
}

/// What the code gets of a path that was tested.
pub fn tested(there: bool) -> (r: Reply)
    ensures
        replies(r, Ok(Tree::Bool(there))),
{
    Ok(bool_json(there))
}

/// What the code gets of the host's answer.
pub fn called(tool: &str, result: Result<Vec<u8>, String>) -> (r: Reply)
    ensures
        replies(
            r,
            match result {
                Ok(bytes) => match parsed_bytes(bytes@) {
                    Ok(t) => Ok(t),
                    Err(e) => Err("tool result parse error: "@ + e),
                },
                Err(e) => Err("tool call '"@ + tool@ + "' failed: "@ + e@),
            },
        ),
{
    match result {
        Ok(bytes) => match parse_json_bytes(bytes.as_slice()) {
            Ok(v) => Ok(v),
            Err(e) => {
                let mut m = "tool result parse error: ".to_owned();
                m.append(e.as_str());
                Err(m)
            },
        },
        Err(e) => {
            let mut m = "tool call '".to_owned();
            m.append(tool);
            m.append("' failed: ");
            m.append(e.as_str());
            Err(m)
        },
    }
}

/// How a command of a shell ended.
pub struct ShellOutcome {
    pub exit_code: i32,
    pub stdout: Vec<u8>,
    pub stderr: Vec<u8>,
}

/// What the code gets of a command.
pub fn shelled(result: Result<ShellOutcome, String>) -> (r: Reply)
    ensures
        replies(
            r,
            match result {
                Ok(o) => Ok(
                    Tree::Object(
                        Map::empty().insert("stdout"@, Tree::Text(lossy(o.stdout@))).insert(
                            "stderr"@,
                            Tree::Text(lossy(o.stderr@)),
                        ).insert("exitCode"@, Tree::Number(signed_decimal(o.exit_code as int))),
                    ),
                ),
                Err(e) => Err(e@),
            },
        ),
{
    match result {
        Ok(o) => {
            let mut ps: Vec<(String, Value)> = Vec::new();
            push_field(&mut ps, "stdout", text_json(read_lossy(o.stdout.as_slice())));
            push_field(&mut ps, "stderr", text_json(read_lossy(o.stderr.as_slice())));
            push_field(&mut ps, "exitCode", int_json(o.exit_code as i64));
            Ok(object_json(ps))
        },
        Err(e) => Err(e),
    }
}

// ---------------------------------------------------------------------------
// The event loop
// ---------------------------------------------------------------------------

/// An operation that the code waits for.
pub struct PendingOp {
    /// The promise that is settled with it.
    pub id: String,
    pub op_type: OpType,
}

/// What the code left when it ran.
pub struct Executed {
    pub value: Value,
    pub console: Vec<ConsoleOutput>,
    pub pending_ops: Vec<PendingOp>,
}

/// What happened.
pub enum Event {
    /// An engine was made.
    Created(Result<(), String>),
    /// The prelude was read, where it can be read.
    PreludeRead(Option<Vec<u8>>),
    /// The prelude ran.
    PreludeRun(Result<(), String>),
    /// The code ran.
    Executed(Result<Executed, String>),
    /// An operation was performed.
    Performed(Reply),
    /// The promise was resolved.
    Resolved(Result<(), String>),
    /// The promise was rejected.
    Rejected(Result<(), String>),
    /// The lines that the code has written since.
    Console(Vec<ConsoleOutput>),
    /// The operations that the code has asked for since.
    Ops(Vec<PendingOp>),
}

/// What is done next.
pub enum Turn {
    /// Make an engine, with a memory limit in bytes where there is one.
    Create(Option<usize>),
    /// Read the prelude.
    ReadPrelude,
    /// Run the prelude.
    RunPrelude(String),
    /// Run the code.
    Execute(String),
    /// Perform an operation.
    Perform(OpType),
    /// Resolve a promise.
    Resolve(String, Value),
    /// Reject a promise.
    Reject(String, String),
    /// Take the lines that the code has written.
    TakeConsole,
    /// Take the operations that the code has asked for.
    TakeOps,
    /// End with an exit code.
    End(i32),
}

/// What is written, in this order, and what is done then.
pub struct Move {
    pub texts: Vec<(Channel, String)>,
    pub turn: Turn,
}

impl Move {
    pub open spec fn writes(self, texts: Seq<(Channel, Seq<char>)>) -> bool {
        written(self.texts@) == texts
    }
}

/// The complaint about something that may have gone wrong.
pub open spec fn trouble_of(step: Step, result: Result<(), String>) -> Seq<
    (Channel, Seq<char>),
> {
    match result {
        Ok(_) => Seq::empty(),
        Err(e) => seq![(Channel::Stderr, step.label() + e@ + "\n"@)],
    }
}

fn trouble(step: Step, result: Result<(), String>) -> (r: Vec<(Channel, String)>)
    ensures
        written(r@) == trouble_of(step, result),
{
    let mut texts: Vec<(Channel, String)> = Vec::new();
    proof {
        assert(written(texts@) =~= Seq::empty());
    }
    match result {
        Ok(_) => {},
        Err(e) => {
            write_text(&mut texts, Channel::Stderr, step.failed(e.as_str()));
            proof {
                assert(written(texts@) =~= trouble_of(step, result));
            }
        },
    }
    texts
}

/// Code that is run, and the operations that it waits for.
pub struct Session {
    /// The code as the engine gets it.
    pub code: String,
    /// Whether the result is printed.
    pub print: bool,
    /// The operations that are still to be performed, in order.
    pub ops: Vec<PendingOp>,
    /// The promise of the operation that is performed.
    pub id: String,
    /// Whether an operation failed.
    pub failed: bool,
}

impl Session {
    /// The exit code when nothing is left to do.
    pub open spec fn code_at_end(self) -> i32 {
        if self.failed {
            1
        } else {
            0
        }
    }

    /// Whether nothing is different but the operations and the promise.
    pub open spec fn like(self, other: Session) -> bool {
        self.code == other.code && self.print == other.print && self.failed == other.failed
    }

    /// Whether nothing is different.
    pub open spec fn same(self, other: Session) -> bool {
        self.like(other) && self.ops == other.ops && self.id == other.id
    }

    /// Whether the first of some operations is performed next, and the others wait.
    pub open spec fn performs(self, turn: Turn, ops: Seq<PendingOp>) -> bool {
        turn == Turn::Perform(ops[0].op_type) && self.id == ops[0].id && self.ops@ == ops.skip(1)
    }

    /// Whether some operations are performed, or the session ends where there are none.
    pub open spec fn performs_or_ends(self, turn: Turn, ops: Seq<PendingOp>) -> bool {
        if ops.len() == 0 {
            turn == Turn::End(self.code_at_end()) && self.ops@.len() == 0
        } else {
            self.performs(turn, ops)
        }
    }

    /// Starts a session: an engine is made.
    pub fn start(node: &Node, code: &str) -> (r: (Session, Turn))
        requires
            node.memory_limit_mb matches Some(mb) ==> mb * 1048576 <= usize::MAX,
        ensures
            r.0.code@ == wrapped(code@, node.print),
            r.0.print == node.print,
            r.0.ops@.len() == 0,
            !r.0.failed,
            r.1 == Turn::Create(
                match node.memory_limit_mb {
                    Some(mb) => Some((mb * 1048576) as usize),
                    None => None,
                },
            ),
    {
        let limit = match node.memory_limit_mb {
            Some(mb) => Some(memory_limit(mb)),
            None => None,
        };
        let session = Session {
            code: wrapped_code(code, node.print),
            print: node.print,
            ops: Vec::new(),
            id: String::new(),
            failed: false,
        };
        (session, Turn::Create(limit))
    }

    fn perform_or_end(&mut self, ops: Vec<PendingOp>) -> (r: Turn)
        ensures
            final(self).like(*old(self)),
            final(self).performs_or_ends(r, ops@),
    {
        let mut ops = ops;
        if ops.len() == 0 {
            self.ops = ops;
            Turn::End(
                if self.failed {
                    1
                } else {
                    0
                },
            )
        } else {
            let ghost all = ops@;
            let first = ops.remove(0);
            proof {
                assert(ops@ =~= all.skip(1));
            }
            self.ops = ops;
            self.id = first.id;
            Turn::Perform(first.op_type)
        }
    }

    /// Goes on when something happened. Operations are performed one by one; when none
    /// is left, the code is asked for more.
    pub fn step(&mut self, event: Event) -> (r: Move)
        ensures
            final(self).code == old(self).code,
            final(self).print == old(self).print,
            final(self).failed == (old(self).failed || (event matches Event::Performed(Err(_)))),
            match event {
                Event::Created(Ok(_)) => r.writes(Seq::empty()) && r.turn
                    == Turn::ReadPrelude && final(self).same(*old(self)),
                Event::Created(Err(e)) => r.writes(trouble_of(Step::Create, Err(e)))
                    && r.turn == Turn::End(1) && final(self).same(*old(self)),
                Event::PreludeRead(Some(bytes)) => r.writes(Seq::empty()) && (
                r.turn matches Turn::RunPrelude(code) && code@ == lossy(bytes@)) && final(self).same(
                    *old(self),
                ),
                Event::PreludeRead(None) => r.writes(Seq::empty()) && (
                r.turn matches Turn::Execute(code) && code@ == old(self).code@) && final(self).same(
                    *old(self),
                ),
                Event::PreludeRun(result) => r.writes(trouble_of(Step::Prelude, result)) && (
                r.turn matches Turn::Execute(code) && code@ == old(self).code@) && final(self).same(*old(self)),
                Event::Executed(Err(e)) => r.writes(trouble_of(Step::Execute, Err(e)))
                    && r.turn == Turn::End(1) && final(self).same(*old(self)),
                Event::Executed(Ok(x)) => r.writes(
                    if old(self).print {
                        console(x.console@).push(
                            (Channel::Stdout, result_text(tree_of(x.value)) + "\n"@),
                        )
                    } else {
                        console(x.console@)
                    },
                ) && final(self).performs_or_ends(r.turn, x.pending_ops@),
                Event::Performed(Ok(v)) => r.writes(Seq::empty()) && (
                r.turn matches Turn::Resolve(id, u) && id@ == old(self).id@ && u == v)
                    && final(self).same(*old(self)),
                Event::Performed(Err(e)) => r.writes(Seq::empty()) && (
                r.turn matches Turn::Reject(id, m) && id@ == old(self).id@ && m == e)
                    && final(self).ops == old(self).ops && final(self).id == old(self).id,
                Event::Resolved(result) => r.writes(trouble_of(Step::Resolve, result))
                    && r.turn == Turn::TakeConsole && final(self).same(*old(self)),
                Event::Rejected(result) => r.writes(trouble_of(Step::Reject, result))
                    && r.turn == Turn::TakeConsole && final(self).same(*old(self)),
                Event::Console(lines) => r.writes(console(lines@)) && if old(self).ops@.len() == 0 {
                    r.turn == Turn::TakeOps && final(self).same(*old(self))
                } else {
                    final(self).performs(r.turn, old(self).ops@)
                },
                Event::Ops(ops) => r.writes(Seq::empty())
                    && final(self).performs_or_ends(r.turn, ops@),
            },
    {
        let mut texts: Vec<(Channel, String)> = Vec::new();
        proof {
            assert(written(texts@) =~= Seq::empty());
        }
        let turn = match event {
            Event::Created(Ok(_)) => Turn::ReadPrelude,
            Event::Created(Err(e)) => {
                texts = trouble(Step::Create, Err(e));
                Turn::End(1)
            },
            Event::PreludeRead(Some(bytes)) => Turn::RunPrelude(script_code(bytes.as_slice())),
            Event::PreludeRead(None) => Turn::Execute(self.code.clone()),
            Event::PreludeRun(result) => {
                texts = trouble(Step::Prelude, result);
                Turn::Execute(self.code.clone())
            },
            Event::Executed(Err(e)) => {
                texts = trouble(Step::Execute, Err(e));
                Turn::End(1)
            },
            Event::Executed(Ok(x)) => {
                let Executed { value, console, pending_ops } = x;
                texts = flush_console(&console);
                if self.print {
                    write_text(&mut texts, Channel::Stdout, result_line(value));
                }
                self.perform_or_end(pending_ops)
            },
            Event::Performed(Ok(v)) => Turn::Resolve(self.id.clone(), v),
            Event::Performed(Err(e)) => {
                self.failed = true;
                Turn::Reject(self.id.clone(), e)
            },
            Event::Resolved(result) => {
                texts = trouble(Step::Resolve, result);
                Turn::TakeConsole
            },
            Event::Rejected(result) => {
                texts = trouble(Step::Reject, result);
                Turn::TakeConsole
            },
            Event::Console(lines) => {
                texts = flush_console(&lines);
                if self.ops.len() == 0 {
                    Turn::TakeOps
                } else {
                    let mut ops: Vec<PendingOp> = Vec::new();
                    std::mem::swap(&mut ops, &mut self.ops);
                    self.perform_or_end(ops)
                }
            },
            Event::Ops(ops) => self.perform_or_end(ops),
        };
        Move { texts, turn }
    }
}

proof fn lemma_option_words()
    ensures
        "-e"@.len() == 2 && "-e"@[0] == '-' && "-e"@[1] == 'e',
        "-p"@.len() == 2 && "-p"@[0] == '-' && "-p"@[1] == 'p',
        "-h"@.len() == 2 && "-h"@[0] == '-' && "-h"@[1] == 'h',
        "-v"@.len() == 2 && "-v"@[0] == '-' && "-v"@[1] == 'v',
        "--eval"@.len() == 6 && "--eval"@[2] == 'e',
        "--print"@.len() == 7,
        "--help"@.len() == 6 && "--help"@[2] == 'h',
        "--version"@.len() == 9,
        "-"@ == seq!['-'],
        limit_prefix().len() == 21 && limit_prefix()[0] == '-' && limit_prefix()[1] == '-',
        "--eval"@[0] == '-' && "--print"@[0] == '-' && "--help"@[0] == '-' && "--version"@[0]
            == '-',
{
    reveal_strlit("-e");
    reveal_strlit("-p");
    reveal_strlit("-h");
    reveal_strlit("-v");
    reveal_strlit("--eval");
    reveal_strlit("--print");
    reveal_strlit("--help");
    reveal_strlit("--version");
    reveal_strlit("-");
    reveal_strlit("--max-old-space-size=");
    assert("-"@ =~= seq!['-']);
}

/// `-e` and `-p` take the code behind them, the memory limit stands in its own argument, and
/// the first argument without a dash is the script, with all that follow it as its own.
pub proof fn law_node_options(args: Seq<Seq<char>>, i: int, g: Given, n: usize)
    requires
        0 <= i < args.len(),
    ensures
        (args[i] == "-e"@ || args[i] == "--eval"@) && i + 1 < args.len() ==> read_args(args, i, g)
            == read_args(args, i + 2, Given { eval: Some(args[i + 1]), ..g }),
        (args[i] == "-p"@ || args[i] == "--print"@) && i + 1 < args.len() ==> read_args(args, i, g)
            == read_args(args, i + 2, Given { print: Some(args[i + 1]), ..g }),
        (args[i] == "-e"@ || args[i] == "--eval"@) && i + 1 == args.len() ==> read_args(args, i, g)
            == Err::<Given, End>(End::Complaint("node: -e requires an argument"@)),
        (args[i] == "-p"@ || args[i] == "--print"@) && i + 1 == args.len() ==> read_args(args, i, g)
            == Err::<Given, End>(End::Complaint("node: -p requires an argument"@)),
        args[i] == "-h"@ || args[i] == "--help"@ ==> read_args(args, i, g) == Err::<Given, End>(
            End::Shown(HELP_TEXT@),
        ),
        args[i] == "-v"@ || args[i] == "--version"@ ==> read_args(args, i, g) == Err::<Given, End>(
            End::Shown("node v0.1.0 (amla-shell QuickJS backend)"@),
        ),
        args[i] == "--max-old-space-size="@ + decimal(n as nat) ==> read_args(args, i, g)
            == read_args(args, i + 1, Given { limit: Some(n as nat), ..g }),
        args[i].len() == 0 || args[i][0] != '-' || args[i] == seq!['-'] ==> read_args(args, i, g)
            == Ok::<Given, End>(
            Given { script: Some(args[i]), script_args: args.skip(i + 1), ..g },
        ),
        read_args(args, args.len() as int, g) == Ok::<Given, End>(g),
{
    lemma_option_words();
    let a = args[i];
    crate::num::law_decimal_is_read(n as nat, 'x', Seq::empty());
    let limit = limit_prefix() + decimal(n as nat);
    crate::num::lemma_decimal_reads_back(n as nat);
    assert(limit.take(21) =~= limit_prefix());
    assert(limit.skip(21) =~= decimal(n as nat));
    if a.len() > 0 && starts_with(a, limit_prefix()) {
        assert(a.take(21)[0] == a[0]);
    }
}

/// Code from the arguments comes before a script: that of `-e` before that of `-p`. A script
/// named by a dash is read from stdin.
pub proof fn law_where_code_comes_from(n: Node, g: Given, c: Seq<char>)
    requires
        is_node(n, g),
    ensures
        g.eval == Some(c) ==> (n.script matches Script::Code(s) && s@ == c),
        g.eval is None && g.print == Some(c) ==> (n.script matches Script::Code(s) && s@ == c),
        g.eval is None && g.print is None && g.script == Some(seq!['-']) ==> n.script is Stdin,
        g.eval is None && g.print is None && g.script == Some(c) && c != seq!['-'] ==> (
        n.script matches Script::File(s) && s@ == c),
        n.print == (g.print is Some),
{
    lemma_option_words();
}

/// Code whose result is printed runs as it is; other code runs in an asynchronous function.
pub proof fn law_code_that_runs(code: Seq<char>)
    ensures
        wrapped(code, true) == code,
        starts_with(wrapped(code, false), "(async () => {\n"@ + code + "\n})().catch("@),
{
    reveal_strlit("\n})().catch(e => {const msg = (e.name ? e.name + ': ' : '') + (e.message || String(e));console.error(e.stack ? msg + '\\n' + e.stack : msg);});");
    reveal_strlit("\n})().catch(");
    let open = "(async () => {\n"@ + code;
    let tail = "\n})().catch(e => {const msg = (e.name ? e.name + ': ' : '') + (e.message || String(e));console.error(e.stack ? msg + '\\n' + e.stack : msg);});"@;
    assert(tail.take(12) =~= "\n})().catch("@);
    let w = wrapped(code, false);
    assert(w == open + tail);
    assert(w.take(open.len() as int + 12) =~= open + "\n})().catch("@);
}

/// Errors and warnings go to stderr, everything else to stdout.
pub proof fn law_streams_of_the_console(level: Seq<char>)
    ensures
        channel_of("error"@) == Channel::Stderr,
        channel_of("warn"@) == Channel::Stderr,
        level != "error"@ && level != "warn"@ ==> channel_of(level) == Channel::Stdout,
{
}

/// The codes of errors.
pub proof fn law_error_codes(p: String, m: String)
    ensures
        io_errno(IoError::NotFound(p)) == "ENOENT"@,
        io_errno(IoError::IsDir(p)) == "EISDIR"@,
        io_errno(IoError::NotDir(p)) == "ENOTDIR"@,
        io_errno(IoError::Permission(p)) == "EACCES"@,
        io_errno(IoError::Exists(p)) == "EEXIST"@,
        io_errno(IoError::InvalidSeek) == "EIO"@,
        io_errno(IoError::Vfs(VfsError::NotFound(p), m)) == "ENOENT"@,
        io_errno(IoError::Vfs(VfsError::PermissionDenied(p), m)) == "EACCES"@,
        io_errno(IoError::Vfs(VfsError::NotADirectory(p), m)) == "ENOTDIR"@,
        io_errno(IoError::Vfs(VfsError::NotAFile(p), m)) == "EISDIR"@,
        io_errno(IoError::Vfs(VfsError::AlreadyExists(p), m)) == "EEXIST"@,
        io_errno(IoError::Vfs(VfsError::InvalidPath(p), m)) == "EINVAL"@,
{
}

/// The code of an error that is known by its message alone.
pub proof fn law_codes_of_messages(m: Seq<char>)
    ensures
        contains_sub(m, "not found"@) ==> errno_of(m) == "ENOENT"@,
        !contains_sub(m, "not found"@) && contains_sub(m, "permission"@) ==> errno_of(m)
            == "EACCES"@,
        !contains_sub(m, "not found"@) && !contains_sub(m, "permission"@) && contains_sub(
            m,
            "not a directory"@,
        ) ==> errno_of(m) == "ENOTDIR"@,
        !contains_sub(m, "not found"@) && !contains_sub(m, "permission"@) && !contains_sub(
            m,
            "not a directory"@,
        ) && (contains_sub(m, "not a file"@) || contains_sub(m, "is a directory"@)) ==> errno_of(m)
            == "EISDIR"@,
        !contains_sub(m, "not found"@) && !contains_sub(m, "permission"@) && !contains_sub(
            m,
            "not a directory"@,
        ) && !contains_sub(m, "not a file"@) && !contains_sub(m, "is a directory"@) && contains_sub(
            m,
            "exists"@,
        ) ==> errno_of(m) == "EEXIST"@,
        !contains_sub(m, "not found"@) && !contains_sub(m, "permission"@) && !contains_sub(
            m,
            "not a directory"@,
        ) && !contains_sub(m, "not a file"@) && !contains_sub(m, "is a directory"@)
            && !contains_sub(m, "exists"@) ==> errno_of(m) == "EIO"@,
{
}

/// A text is shown as it is, null and what cannot be written as undefined, and any other
/// result as JSON.
pub proof fn law_results_are_shown(s: Seq<char>, t: Tree)
    ensures
        result_text(Tree::Text(s)) == s,
        result_text(Tree::Null) == "undefined"@,
        !(t is Text) && !(t is Null) && compact(t) == Some(s) ==> result_text(t) == s,
        !(t is Text) && !(t is Null) && compact(t) is None ==> result_text(t) == "undefined"@,
{
}

/// The directory above a path is what stands before its last slash; the root and a bare name
/// have none.
pub proof fn law_directory_above(dir: Seq<char>, name: Seq<char>)
    requires
        forall|k: int| 0 <= k < name.len() ==> #[trigger] name[k] != '/',
    ensures
        dir.len() > 0 ==> above(dir + seq!['/'] + name) == Some(dir),
        above(seq!['/'] + name) is None,
        above(name) is None,
{
    let p = dir + seq!['/'] + name;
    let n = dir.len() as int;
    assert(p[n] == '/');
    assert forall|k: int| n + 1 <= k < p.len() implies p[k] != '/' by {
        assert(p[k] == name[k - n - 1]);
    }
    lemma_slash_is(p, n, p.len() as int);
    assert(p.take(n) =~= dir);
    let q = seq!['/'] + name;
    assert(q[0] == '/');
    assert forall|k: int| 1 <= k < q.len() implies q[k] != '/' by {
        assert(q[k] == name[k - 1]);
    }
    lemma_slash_is(q, 0, q.len() as int);
    lemma_slash_is(name, -1, name.len() as int);
}

proof fn lemma_slash_is(path: Seq<char>, at: int, n: int)
    requires
        -1 <= at < n <= path.len() || (at == -1 && n == 0),
        at >= 0 ==> path[at] == '/',
        forall|k: int| at < k < path.len() ==> #[trigger] path[k] != '/',
    ensures
        last_slash(path, n) == at,
    decreases n,
{
    if n > 0 && at < n - 1 {
        assert(path[n - 1] != '/');
        lemma_slash_is(path, at, n - 1);
    }
}

/// A file is read as base64 or as a list of its bytes where that is asked for, and otherwise
/// as text.
pub proof fn law_contents(bytes: Seq<u8>, text: Seq<char>, encoding: Option<Seq<char>>, k: int)
    ensures
        content(bytes, Some("base64"@)) == Tree::Text(encoded_from(bytes, 0)),
        content(bytes, Some("buffer"@)) matches Tree::List(items) && items.len() == bytes.len() && (
        0 <= k < bytes.len() ==> items[k] == Tree::Number(decimal(bytes[k] as nat))),
        content(bytes, Some("binary"@)) == content(bytes, Some("buffer"@)),
        encoding != Some("base64"@) && encoding != Some("buffer"@) && encoding != Some("binary"@)
            ==> content(encode_utf8(text), encoding) == Tree::Text(text),
{
    broadcast use {encode_utf8_valid_utf8, encode_utf8_decode_utf8};

    reveal_strlit("base64");
    reveal_strlit("buffer");
    reveal_strlit("binary");
    assert("base64"@[1] == 'a' && "buffer"@[1] == 'u' && "binary"@[1] == 'i');
}

/// What is known of a path: its size, whether it is a directory and whether it is a file.
pub proof fn law_what_is_known_of_a_path(s: Stat)
    ensures
        stat_tree(s) matches Tree::Object(fs) && fs.contains_pair(
            "size"@,
            Tree::Number(decimal(s.size as nat)),
        ) && fs.contains_pair("isDirectory"@, Tree::Bool(s.is_dir)) && fs.contains_pair(
            "isFile"@,
            Tree::Bool(s.is_file),
        ) && fs.contains_pair("isSymbolicLink"@, Tree::Bool(false)),
{
    reveal_strlit("size");
    reveal_strlit("isDirectory");
    reveal_strlit("isFile");
    reveal_strlit("isSymbolicLink");
    reveal_strlit("modifiedAt");
    assert("size"@.len() == 4 && "isDirectory"@.len() == 11 && "isFile"@.len() == 6);
    assert("isSymbolicLink"@.len() == 14 && "modifiedAt"@.len() == 10);
}

/// What is done for an operation on files is done to the path that it means in the working
/// directory; what the host alone could do is refused, with its name.
pub proof fn law_what_operations_do(
    ctx: CmdContext,
    path: String,
    data: String,
    all: bool,
    encoding: Option<String>,
)
    ensures
        doing(ctx, OpType::FsRead { path, encoding }) == Doing::Read(resolved(ctx.cwd@, path@)),
        doing(ctx, OpType::FsReadDir { path }) == Doing::ReadDir(resolved(ctx.cwd@, path@)),
        doing(ctx, OpType::FsStat { path }) == Doing::Stat(resolved(ctx.cwd@, path@)),
        doing(ctx, OpType::FsExists { path }) == Doing::Exists(resolved(ctx.cwd@, path@)),
        doing(ctx, OpType::FsUnlink { path }) == Doing::Remove(resolved(ctx.cwd@, path@)),
        doing(ctx, OpType::FsMkdir { path, recursive: all }) == Doing::Mkdir(
            resolved(ctx.cwd@, path@),
            all,
        ),
        doing(ctx, OpType::FsWrite { path, data, create_dirs: true, append: all }) == Doing::Write(
            resolved(ctx.cwd@, path@),
            above(resolved(ctx.cwd@, path@)),
            data@,
            all,
        ),
        doing(ctx, OpType::FsWrite { path, data, create_dirs: false, append: all }) == Doing::Write(
            resolved(ctx.cwd@, path@),
            None,
            data@,
            all,
        ),
        doing(ctx, OpType::Shell { command: data }) == Doing::Shell(data@),
        doing(ctx, OpType::Fetch { url: data }) == Doing::Refuse(
            "fetch"@ + " '"@ + data@ + "' not supported in standalone mode"@,
        ),
        doing(ctx, OpType::MemoryRead { key: data }) == Doing::Refuse(
            "memory read"@ + " '"@ + data@ + "' not supported in standalone mode"@,
        ),
        doing(ctx, OpType::MemoryWrite { key: data }) == Doing::Refuse(
            "memory write"@ + " '"@ + data@ + "' not supported in standalone mode"@,
        ),
        doing(ctx, OpType::MemoryDelete { key: data }) == Doing::Refuse(
            "memory delete"@ + " '"@ + data@ + "' not supported in standalone mode"@,
        ),
        doing(ctx, OpType::LlmCall { model: data }) == Doing::Refuse(
            "LLM call"@ + " '"@ + data@ + "' not supported in standalone mode"@,
        ),
{
}

/// What fails in a step of the engine is said with the name of the step, and nothing is said of
/// a step that succeeds.
pub proof fn law_troubles(e: String)
    ensures
        trouble_of(Step::Create, Err(e)) == seq![
            (Channel::Stderr, "node: failed to create runtime: "@ + e@ + "\n"@),
        ],
        trouble_of(Step::Prelude, Err(e)) == seq![
            (Channel::Stderr, "node: failed to load prelude: "@ + e@ + "\n"@),
        ],
        trouble_of(Step::Execute, Err(e)) == seq![(Channel::Stderr, "node: "@ + e@ + "\n"@)],
        trouble_of(Step::Resolve, Err(e)) == seq![
            (Channel::Stderr, "node: failed to resolve promise: "@ + e@ + "\n"@),
        ],
        trouble_of(Step::Reject, Err(e)) == seq![
            (Channel::Stderr, "node: failed to reject promise: "@ + e@ + "\n"@),
        ],
        trouble_of(Step::Create, Ok(())).len() == 0,
{
}

/// A session fails where an operation failed, and performs the operations that are asked for in
/// order.
pub proof fn law_end_of_a_session(s: Session, turn: Turn, ops: Seq<PendingOp>)
    requires
        s.performs_or_ends(turn, ops),
    ensures
        ops.len() == 0 && s.failed ==> turn == Turn::End(1),
        ops.len() == 0 && !s.failed ==> turn == Turn::End(0),
        ops.len() > 0 ==> turn == Turn::Perform(ops[0].op_type) && s.id == ops[0].id && s.ops@
            == ops.skip(1),
{
}

/// An error is told behind its code.
pub proof fn law_errors_are_told(e: IoError)
    ensures
        io_told(e) == io_errno(e) + seq![':', ' '] + e.spec_message(),
{
    reveal_strlit(": ");
    assert(": "@ =~= seq![':', ' ']);
}

/// A reply is the value of an operation or what went wrong with it.
pub proof fn law_replies(r: Reply, t: Tree, m: Seq<char>)
    ensures
        replies(r, Ok(t)) ==> (r matches Ok(v) && tree_of(v) == t),
        replies(r, Err(m)) ==> (r matches Err(e) && e@ == m),
{
}

/// A session keeps its code and how it ends; one that is the same keeps its operations too.
pub proof fn law_what_stays(a: Session, b: Session)
    ensures
        a.like(b) ==> a.code == b.code && a.print == b.print && a.failed == b.failed
            && a.code_at_end() == b.code_at_end(),
        a.same(b) ==> a.like(b) && a.ops == b.ops && a.id == b.id,
{
}

} // verus!
