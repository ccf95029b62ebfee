//! tee - read from stdin and write to stdout and files
use vstd::prelude::*;
use crate::args::{arg_tokens, has_long, has_short, lex_args, values, values_from, Tok};
use crate::commands::{refusal, refusal_line, Said, Start};
use crate::error::IoError;
use crate::list::{strings_of, Strings};
use crate::text::strs;

verus! {

pub const HELP: &'static str = "tee - read from stdin and write to stdout and files\n\nUsage: tee [OPTIONS] [FILE...]\n\nOptions:\n  -h, --help    Show this help message\n  -a            Append to files instead of overwriting\n  -i            Ignore SIGINT (no-op in sandbox)\n\nReads from stdin and writes to both stdout and the specified files.\nStreams in 4KB chunks for memory efficiency.\n";

/// A running tee.
pub struct Tee {
    /// Whether files keep what they hold.
    pub append: bool,
    /// The files that every chunk of input is appended to.
    pub files: Strings,
    /// The exit code so far.
    pub code: i32,
}

/// What tee finds in its arguments.
pub open spec fn tee_tokens(argv: Seq<Seq<char>>) -> Seq<Tok> {
    arg_tokens(argv, Seq::empty(), false)
}

pub open spec fn wants_help(ts: Seq<Tok>) -> bool {
    ts.contains(Tok::Short('h')) || ts.contains(Tok::Long("help"@))
}

/// Starts tee.
pub fn run(argv: &Vec<String>) -> (r: Start<Tee>)
    ensures
        ({
            let ts = tee_tokens(strs(argv@));
            match r {
                Start::Done(said) => wants_help(ts) && said.says(HELP@, Seq::empty(), 0),
                Start::Go(t) => !wants_help(ts) && t.append == (ts.contains(Tok::Short('a'))
                    || ts.contains(Tok::Long("append"@))) && strings_of(t.files) == values_from(
                    ts,
                    0,
                ) && t.code == 0,
            }
        }),
{
    let none: Vec<char> = Vec::new();
    proof {
        assert(none@ =~= Seq::<char>::empty());
    }
    let ts = lex_args(argv, &none, false);
    if has_short(&ts, 'h') || has_long(&ts, "help") {
        return Start::Done(Said::output(HELP));
    }
    Start::Go(
        Tee {
            append: has_short(&ts, 'a') || has_long(&ts, "append"),
            files: values(&ts),
            code: 0,
        },
    )
}

impl Tee {
    /// The complaint about a file that cannot be emptied at the start. It does not
    /// change the exit code.
    pub fn not_emptied(&self, path: &str, e: &IoError) -> (r: String)
        ensures
            r@ == refusal("tee"@, path@, e.spec_message()),
    {
        refusal_line("tee", path, e)
    }

    /// The complaint about a file that a chunk cannot be appended to. The exit code
    /// is then 1.
    pub fn not_written(&mut self, path: &str, e: &IoError) -> (r: String)
        ensures
            r@ == refusal("tee"@, path@, e.spec_message()),
            final(self).code == 1,
            final(self).append == old(self).append,
            final(self).files == old(self).files,
    {
        self.code = 1;
        refusal_line("tee", path, e)
    }
}

/// No option takes a value; the first argument is the name of the command.
pub proof fn law_options_with_values(name: Seq<char>, args: Seq<Seq<char>>)
    ensures
        tee_tokens(seq![name] + args) == crate::args::tokens(args, Seq::empty(), false),
        tee_tokens(Seq::empty()).len() == 0,
{
    assert((seq![name] + args).skip(1) =~= args);
}

/// Help is asked for by `-h` or by `--help`, and by nothing else.
pub proof fn law_help_is_asked_for(t: Tok)
    ensures
        wants_help(seq![t]) == (t == Tok::Short('h') || t == Tok::Long("help"@)),
        !wants_help(Seq::empty()),
{
    let ts = seq![t];
    assert(ts[0] == t);
    assert(ts.contains(t));
}

} // verus!
