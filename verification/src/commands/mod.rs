//! The commands.
use vstd::prelude::*;
use vstd::string::StringExecFns;
use crate::error::IoError;
use crate::list::{pairs_of, strings_of, Pairs, Strings};

pub mod builtins;
pub mod cat;
pub mod cut;
pub mod date;
pub mod echo;
pub mod find;
pub mod grep;
pub mod head;
pub mod help;
pub mod jq;
pub mod ls;
pub mod mkdir;
pub mod node;
pub mod panic;
pub mod printf;
pub mod registry;
pub mod rm;
pub mod sh;
pub mod sleep;
pub mod sort;
pub mod tail;
pub mod tee;
pub mod test_cmd;
pub mod time;
pub mod tool;
pub mod tools;
pub mod touch;
pub mod tr;
pub mod uniq;
pub mod wc;
pub mod xxd;

pub use registry::{all_commands, available_commands, get_command, CommandId, CommandInfo};

verus! {

/// What a command leaves when it ends at once: its output, its complaints and its
/// exit code.
#[derive(Debug)]
pub struct Said {
    /// What goes to stdout.
    pub out: String,
    /// What goes to stderr.
    pub err: String,
    /// The exit code.
    pub code: i32,
}

impl Said {
    /// Whether the output, the complaints and the exit code are these.
    pub open spec fn says(self, out: Seq<char>, err: Seq<char>, code: int) -> bool {
        self.out@ == out && self.err@ == err && self.code == code
    }

    /// Output without complaints.
    pub fn output(text: &str) -> (r: Said)
        ensures
            r.says(text@, Seq::empty(), 0),
    {
        let err = String::new();
        Said { out: text.to_owned(), err, code: 0 }
    }

    /// One line of complaint.
    pub fn complaint(text: &str, code: i32) -> (r: Said)
        ensures
            r.says(Seq::empty(), text@ + seq!['\n'], code as int),
    {
        let mut err = text.to_owned();
        err.push('\n');
        proof {
            assert(err@ =~= text@ + seq!['\n']);
        }
        Said { out: String::new(), err, code }
    }
}

/// What a command leaves that can print any bytes, also such as are no text.
#[derive(Debug)]
pub struct Printed {
    /// What goes to stdout.
    pub out: Vec<u8>,
    /// What goes to stderr.
    pub err: String,
    /// The exit code.
    pub code: i32,
}

impl Printed {
    /// Whether the output, the complaints and the exit code are these.
    pub open spec fn says(self, out: Seq<u8>, err: Seq<char>, code: int) -> bool {
        self.out@ == out && self.err@ == err && self.code == code
    }
}

/// A stream that a command writes to.
#[derive(Debug, Clone, Copy, PartialEq, Eq, Structural)]
pub enum Channel {
    Stdout,
    Stderr,
}

/// What is written, text by text, and the stream that each text goes to.
pub open spec fn written(texts: Seq<(Channel, String)>) -> Seq<(Channel, Seq<char>)> {
    texts.map_values(|t: (Channel, String)| (t.0, t.1@))
}

/// All that goes to one stream.
pub open spec fn text_to(texts: Seq<(Channel, Seq<char>)>, to: Channel) -> Seq<char>
    decreases texts.len(),
{
    if texts.len() == 0 {
        Seq::empty()
    } else if texts.last().0 == to {
        text_to(texts.drop_last(), to) + texts.last().1
    } else {
        text_to(texts.drop_last(), to)
    }
}

/// What goes to one stream of two rows of texts is what goes there of each.
pub proof fn lemma_text_to(
    a: Seq<(Channel, Seq<char>)>,
    b: Seq<(Channel, Seq<char>)>,
    to: Channel,
)
    ensures
        text_to(a + b, to) == text_to(a, to) + text_to(b, to),
    decreases b.len(),
{
    if b.len() == 0 {
        assert(a + b =~= a);
        assert(text_to(a, to) + text_to(b, to) =~= text_to(a, to));
    } else {
        assert((a + b).drop_last() =~= a + b.drop_last());
        lemma_text_to(a, b.drop_last(), to);
        assert(text_to(a + b, to) =~= text_to(a, to) + text_to(b, to));
    }
}

/// Puts a text behind those that are written.
pub(crate) fn write_text(texts: &mut Vec<(Channel, String)>, to: Channel, text: String)
    ensures
        written(final(texts)@) == written(old(texts)@).push((to, text@)),
{
    let ghost before = texts@;
    let t = (to, text);
    texts.push(t);
    proof {
        assert(written(texts@) =~= written(before).push((to, text@)));
    }
}

/// What a command writes before it ends, and its exit code.
#[derive(Debug)]
pub struct Report {
    /// What is written, in this order.
    pub texts: Vec<(Channel, String)>,
    /// The exit code.
    pub code: i32,
}

/// How a command starts.
pub enum Start<T> {
    /// It ends at once.
    Done(Said),
    /// It reads its input.
    Go(T),
}

/// The line that a command writes about an input that it cannot open.
pub open spec fn refusal(command: Seq<char>, path: Seq<char>, message: Seq<char>) -> Seq<char> {
    command + ": "@ + path + ": "@ + message + "\n"@
}

/// The line that a command writes about an input that it cannot open.
pub fn refusal_line(command: &str, path: &str, e: &IoError) -> (r: String)
    ensures
        r@ == refusal(command@, path@, e.spec_message()),
{
    let mut r = command.to_owned();
    r.append(": ");
    r.append(path);
    r.append(": ");
    let m = e.message();
    r.append(m.as_str());
    r.append("\n");
    r
}

/// What a command changes in the shell that runs it.
pub struct SideEffects {
    /// The new working directory.
    pub cwd: Option<String>,
    /// The environment variables to set.
    pub env_set: Pairs,
    /// The environment variables to remove.
    pub env_unset: Strings,
    /// Whether a pipeline fails where one of its commands does.
    pub pipefail: Option<bool>,
}

impl SideEffects {
    /// Whether the changes are these.
    pub open spec fn are(
        self,
        cwd: Option<Seq<char>>,
        env_set: Seq<(Seq<char>, Seq<char>)>,
        env_unset: Seq<Seq<char>>,
        pipefail: Option<bool>,
    ) -> bool {
        &&& match (self.cwd, cwd) {
            (Some(s), Some(t)) => s@ == t,
            (None, None) => true,
            _ => false,
        }
        &&& pairs_of(self.env_set) == env_set
        &&& strings_of(self.env_unset) == env_unset
        &&& self.pipefail == pipefail
    }

    /// Whether nothing changes.
    pub open spec fn are_none(self) -> bool {
        self.are(None, Seq::empty(), Seq::empty(), None)
    }

    /// No change.
    pub fn none() -> (r: SideEffects)
        ensures
            r.are_none(),
    {
        SideEffects { cwd: None, env_set: Pairs::new(), env_unset: Strings::new(), pipefail: None }
    }
}

/// How a command that can change the shell ends.
pub struct Exit {
    /// What it said, and its exit code.
    pub said: Said,
    /// What it changes.
    pub effects: SideEffects,
}

impl Exit {
    /// An end with an exit code, in silence and without a change.
    pub fn code(code: i32) -> (r: Exit)
        ensures
            r.said.says(Seq::empty(), Seq::empty(), code as int),
            r.effects.are_none(),
    {
        Exit {
            said: Said { out: String::new(), err: String::new(), code },
            effects: SideEffects::none(),
        }
    }

    /// Success, in silence and without a change.
    pub fn success() -> (r: Exit)
        ensures
            r.said.says(Seq::empty(), Seq::empty(), 0),
            r.effects.are_none(),
    {
        Exit::code(0)
    }

    /// An end without a change.
    pub fn saying(said: Said) -> (r: Exit)
        ensures
            r.said == said,
            r.effects.are_none(),
    {
        Exit { said, effects: SideEffects::none() }
    }
}

/// What goes to one stream is what is written to it, in order, and nothing of what is written
/// to the other.
pub proof fn law_streams_are_apart(texts: Seq<(Channel, Seq<char>)>, text: Seq<char>)
    ensures
        text_to(Seq::empty(), Channel::Stdout).len() == 0,
        text_to(Seq::empty(), Channel::Stderr).len() == 0,
        text_to(texts.push((Channel::Stdout, text)), Channel::Stdout) == text_to(
            texts,
            Channel::Stdout,
        ) + text,
        text_to(texts.push((Channel::Stdout, text)), Channel::Stderr) == text_to(
            texts,
            Channel::Stderr,
        ),
        text_to(texts.push((Channel::Stderr, text)), Channel::Stderr) == text_to(
            texts,
            Channel::Stderr,
        ) + text,
        text_to(texts.push((Channel::Stderr, text)), Channel::Stdout) == text_to(
            texts,
            Channel::Stdout,
        ),
{
    assert(texts.push((Channel::Stdout, text)).drop_last() =~= texts);
    assert(texts.push((Channel::Stderr, text)).drop_last() =~= texts);
}

/// A complaint names the command, the path and what went wrong, on one line.
pub proof fn law_complaints(command: Seq<char>, path: Seq<char>, message: Seq<char>)
    ensures
        refusal(command, path, message) == command + seq![':', ' '] + path + seq![':', ' ']
            + message + seq!['\n'],
{
    reveal_strlit(": ");
    reveal_strlit("\n");
    assert(": "@ =~= seq![':', ' ']);
    assert("\n"@ =~= seq!['\n']);
}

/// What a command changes is told by what each of its parts holds.
pub proof fn law_effects(e: SideEffects, dir: Seq<char>, name: Seq<char>, value: Seq<char>)
    ensures
        e.are(Some(dir), Seq::empty(), Seq::empty(), None) ==> (e.cwd matches Some(s) && s@ == dir)
            && pairs_of(e.env_set).len() == 0 && strings_of(e.env_unset).len() == 0,
        e.are(None, seq![(name, value)], Seq::empty(), None) ==> e.cwd is None && pairs_of(
            e.env_set,
        ) == seq![(name, value)] && e.pipefail is None,
        e.are(None, Seq::empty(), seq![name], None) ==> strings_of(e.env_unset) == seq![name],
        e.are(None, Seq::empty(), Seq::empty(), Some(true)) ==> e.pipefail == Some(true),
        e.are_none() ==> e.cwd is None && pairs_of(e.env_set).len() == 0 && strings_of(
            e.env_unset,
        ).len() == 0 && e.pipefail is None,
{
}

/// What a command says is all of its output, all of its complaints and its exit code.
pub proof fn law_what_is_said(
    s: Said,
    p: Printed,
    out: Seq<char>,
    bytes: Seq<u8>,
    err: Seq<char>,
    code: int,
)
    ensures
        s.says(out, err, code) ==> s.out@ == out,
        s.says(out, err, code) ==> s.err@ == err,
        s.says(out, err, code) ==> s.code == code,
        s.out@ == out && s.err@ == err && s.code == code ==> s.says(out, err, code),
        p.says(bytes, err, code) ==> p.out@ == bytes,
        p.says(bytes, err, code) ==> p.err@ == err,
        p.says(bytes, err, code) ==> p.code == code,
        p.out@ == bytes && p.err@ == err && p.code == code ==> p.says(bytes, err, code),
{
}

} // verus!
