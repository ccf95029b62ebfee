//! touch - create empty files
use vstd::prelude::*;
use vstd::string::StringExecFns;
use crate::args::{arg_tokens, has_long, has_short, lex_args, values, values_from, Tok};
use crate::commands::{Said, Start};
use crate::context::CmdContext;
use crate::error::IoError;
use crate::list::{strings_of, Strings};
use crate::text::strs;

verus! {

/// A running touch.
pub struct Touch {
    /// Whether no file is created.
    pub no_create: bool,
    /// The files to touch.
    pub files: Strings,
    /// The exit code so far.
    pub code: i32,
}

/// What touch finds in its arguments.
pub open spec fn touch_tokens(argv: Seq<Seq<char>>) -> Seq<Tok> {
    arg_tokens(argv, Seq::empty(), false)
}

/// Starts touch.
pub fn run(argv: &Vec<String>) -> (r: Start<Touch>)
    ensures
        ({
            let ts = touch_tokens(strs(argv@));
            match r {
                Start::Done(said) => values_from(ts, 0).len() == 0 && said.says(
                    Seq::empty(),
                    "touch: missing file operand"@ + seq!['\n'],
                    1,
                ),
                Start::Go(t) => values_from(ts, 0).len() > 0 && strings_of(t.files) == values_from(
                    ts,
                    0,
                ) && t.no_create == (ts.contains(Tok::Short('c')) || ts.contains(
                    Tok::Long("no-create"@),
                )) && t.code == 0,
            }
        }),
{
    let none: Vec<char> = Vec::new();
    proof {
        assert(none@ =~= Seq::<char>::empty());
    }
    let ts = lex_args(argv, &none, false);
    let files = values(&ts);
    if files.len() == 0 {
        return Start::Done(Said::complaint("touch: missing file operand", 1));
    }
    Start::Go(
        Touch { no_create: has_short(&ts, 'c') || has_long(&ts, "no-create"), files, code: 0 },
    )
}

impl Touch {
    /// Decides whether an empty file is written: only where nothing is there.
    pub fn creates(&self, ctx: &CmdContext, path: &str) -> (r: bool)
        ensures
            r == (!ctx.has(path@) && !self.no_create),
    {
        !ctx.path_exists(path) && !self.no_create
    }

    /// What is said of a file that could not be written. The exit code is then 1.
    pub fn not_created(&mut self, path: &str, e: &IoError) -> (r: Said)
        ensures
            final(self).no_create == old(self).no_create,
            final(self).files == old(self).files,
            final(self).code == 1,
            r.says(
                Seq::empty(),
                "touch: cannot touch '"@ + path@ + "': "@ + e.spec_message() + "\n"@,
                1,
            ),
    {
        let mut err = "touch: cannot touch '".to_owned();
        err.append(path);
        err.append("': ");
        let m = e.message();
        err.append(m.as_str());
        err.append("\n");
        self.code = 1;
        Said { out: String::new(), err, code: 1 }
    }
}

/// No option takes a value; the first argument is the name of the command.
pub proof fn law_options_with_values(name: Seq<char>, args: Seq<Seq<char>>)
    ensures
        touch_tokens(seq![name] + args) == crate::args::tokens(args, Seq::empty(), false),
        touch_tokens(Seq::empty()).len() == 0,
{
    assert((seq![name] + args).skip(1) =~= args);
}

} // verus!
