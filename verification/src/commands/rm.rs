//! rm - remove files or directories
use vstd::prelude::*;
use vstd::string::StringExecFns;
use crate::args::{arg_tokens, has_long, has_short, lex_args, values, values_from, Tok};
use crate::commands::{Said, Start};
use crate::context::CmdContext;
use crate::error::IoError;
use crate::list::{strings_of, Strings};
use crate::text::strs;

verus! {

pub const HELP: &'static str = "rm - remove files or directories\n\nUsage: rm [OPTIONS] FILE...\n\nOptions:\n  -h, --help       Show this help message\n  -r, -R, --recursive\n                   Remove directories and their contents recursively\n  -f, --force      Ignore nonexistent files, never prompt\n  -v, --verbose    Explain what is being done\n\nExamples:\n  rm file.txt           Remove a single file\n  rm -r directory       Remove a directory and its contents\n  rm -rf temp           Force remove without errors for missing files\n";

/// A running rm.
pub struct Rm {
    /// Whether directories are removed with all that they hold.
    pub recursive: bool,
    /// Whether missing files are passed over.
    pub force: bool,
    /// Whether each removal is reported.
    pub verbose: bool,
    /// The files to remove.
    pub files: Strings,
    /// The exit code so far.
    pub code: i32,
}

/// What rm does with a path.
#[derive(Debug, Clone, Copy, PartialEq, Eq, Structural)]
pub enum RmStep {
    /// Nothing.
    Nothing,
    /// It complains that the path does not exist.
    Missing,
    /// It complains that the path is a directory.
    Directory,
    /// It removes the directory with all that it holds.
    RemoveTree,
    /// It removes the file.
    Remove,
}

/// What rm finds in its arguments.
pub open spec fn rm_tokens(argv: Seq<Seq<char>>) -> Seq<Tok> {
    arg_tokens(argv, Seq::empty(), false)
}

pub open spec fn wants_help(ts: Seq<Tok>) -> bool {
    ts.contains(Tok::Short('h')) || ts.contains(Tok::Long("help"@))
}

pub open spec fn is_forced(ts: Seq<Tok>) -> bool {
    ts.contains(Tok::Short('f')) || ts.contains(Tok::Long("force"@))
}

/// Starts rm.
pub fn run(argv: &Vec<String>) -> (r: Start<Rm>)
    ensures
        ({
            let ts = rm_tokens(strs(argv@));
            let files = values_from(ts, 0);
            match r {
                Start::Done(said) => if wants_help(ts) {
                    said.says(HELP@, Seq::empty(), 0)
                } else if is_forced(ts) {
                    files.len() == 0 && said.says(Seq::empty(), Seq::empty(), 0)
                } else {
                    files.len() == 0 && said.says(
                        Seq::empty(),
                        "rm: missing operand"@ + seq!['\n'],
                        1,
                    )
                },
                Start::Go(m) => !wants_help(ts) && files.len() > 0 && strings_of(m.files) == files
                    && m.force == is_forced(ts) && m.recursive == (ts.contains(Tok::Short('r'))
                    || ts.contains(Tok::Short('R')) || ts.contains(Tok::Long("recursive"@)))
                    && m.verbose == (ts.contains(Tok::Short('v')) || ts.contains(
                    Tok::Long("verbose"@),
                )) && m.code == 0,
            }
        }),
{
    let none: Vec<char> = Vec::new();
    proof {
        assert(none@ =~= Seq::<char>::empty());
    }
    let ts = lex_args(argv, &none, false);
    if has_short(&ts, 'h') || has_long(&ts, "help") {
        return Start::Done(Said::output(HELP));
    }
    let force = has_short(&ts, 'f') || has_long(&ts, "force");
    let files = values(&ts);
    if files.len() == 0 {
        if !force {
            return Start::Done(Said::complaint("rm: missing operand", 1));
        }
        return Start::Done(Said { out: String::new(), err: String::new(), code: 0 });
    }
    Start::Go(
        Rm {
            recursive: has_short(&ts, 'r') || has_short(&ts, 'R') || has_long(&ts, "recursive"),
            force,
            verbose: has_short(&ts, 'v') || has_long(&ts, "verbose"),
            files,
            code: 0,
        },
    )
}

impl Rm {
    /// What rm does with a path.
    pub open spec fn spec_step(self, ctx: CmdContext, path: Seq<char>) -> RmStep {
        if !ctx.has(path) {
            if self.force {
                RmStep::Nothing
            } else {
                RmStep::Missing
            }
        } else if ctx.has_dir(path) {
            if self.recursive {
                RmStep::RemoveTree
            } else {
                RmStep::Directory
            }
        } else {
            RmStep::Remove
        }
    }

    /// Whether everything but the exit code is the same.
    pub open spec fn alike(self, other: Rm) -> bool {
        self.recursive == other.recursive && self.force == other.force && self.verbose
            == other.verbose && self.files == other.files
    }

    /// Decides what is done with a path.
    pub fn step(&self, ctx: &CmdContext, path: &str) -> (r: RmStep)
        ensures
            r == self.spec_step(*ctx, path@),
    {
        if !ctx.path_exists(path) {
            if self.force {
                RmStep::Nothing
            } else {
                RmStep::Missing
            }
        } else if ctx.is_dir(path) {
            if self.recursive {
                RmStep::RemoveTree
            } else {
                RmStep::Directory
            }
        } else {
            RmStep::Remove
        }
    }

    fn complain(&mut self, path: &str, message: &str) -> (r: Said)
        ensures
            final(self).alike(*old(self)),
            final(self).code == 1,
            r.says(Seq::empty(), "rm: cannot remove '"@ + path@ + "': "@ + message@ + "\n"@, 1),
    {
        let mut err = "rm: cannot remove '".to_owned();
        err.append(path);
        err.append("': ");
        err.append(message);
        err.append("\n");
        self.code = 1;
        Said { out: String::new(), err, code: 1 }
    }

    /// What is said of a path that is not removed. The exit code is then 1.
    pub fn kept(&mut self, path: &str, step: RmStep) -> (r: Said)
        requires
            step == RmStep::Missing || step == RmStep::Directory,
        ensures
            final(self).alike(*old(self)),
            final(self).code == 1,
            r.says(
                Seq::empty(),
                "rm: cannot remove '"@ + path@ + "': "@ + (if step == RmStep::Missing {
                    "No such file or directory"@
                } else {
                    "Is a directory"@
                }) + "\n"@,
                1,
            ),
    {
        if step == RmStep::Missing {
            self.complain(path, "No such file or directory")
        } else {
            self.complain(path, "Is a directory")
        }
    }

    /// What is said of a path that was removed, or could not be. A failure makes the
    /// exit code 1.
    pub fn removed(&mut self, path: &str, result: std::result::Result<(), IoError>) -> (r: Said)
        ensures
            final(self).alike(*old(self)),
            final(self).code == r.code,
            match result {
                Err(e) => r.says(
                    Seq::empty(),
                    "rm: cannot remove '"@ + path@ + "': "@ + e.spec_message() + "\n"@,
                    1,
                ),
                Ok(_) => r.says(
                    if old(self).verbose {
                        "removed '"@ + path@ + "'\n"@
                    } else {
                        Seq::empty()
                    },
                    Seq::empty(),
                    old(self).code as int,
                ),
            },
    {
        match result {
            Err(e) => {
                let m = e.message();
                self.complain(path, m.as_str())
            },
            Ok(_) => {
                let mut out = String::new();
                if self.verbose {
                    out = "removed '".to_owned();
                    out.append(path);
                    out.append("'\n");
                }
                Said { out, err: String::new(), code: self.code }
            },
        }
    }
}

/// Without `-r`, no directory is ever removed.
pub proof fn law_directories_are_kept(m: Rm, ctx: CmdContext, path: Seq<char>)
    requires
        !m.recursive,
        ctx.has_dir(path),
    ensures
        m.spec_step(ctx, path) == RmStep::Directory,
{
}

/// A file is removed, a directory only with all that it holds where that is asked for, and a
/// missing path is complained about unless it is to be passed over.
pub proof fn law_what_rm_does(m: Rm, ctx: CmdContext, path: Seq<char>)
    ensures
        !ctx.has(path) && m.force ==> m.spec_step(ctx, path) == RmStep::Nothing,
        !ctx.has(path) && !m.force ==> m.spec_step(ctx, path) == RmStep::Missing,
        ctx.has(path) && ctx.has_dir(path) && m.recursive ==> m.spec_step(ctx, path)
            == RmStep::RemoveTree,
        ctx.has(path) && ctx.has_dir(path) && !m.recursive ==> m.spec_step(ctx, path)
            == RmStep::Directory,
        ctx.has(path) && !ctx.has_dir(path) ==> m.spec_step(ctx, path) == RmStep::Remove,
{
}

/// No option takes a value; the first argument is the name of the command.
pub proof fn law_options_with_values(name: Seq<char>, args: Seq<Seq<char>>)
    ensures
        rm_tokens(seq![name] + args) == crate::args::tokens(args, Seq::empty(), false),
        rm_tokens(Seq::empty()).len() == 0,
{
    assert((seq![name] + args).skip(1) =~= args);
}

/// Help is asked for by `-h` or by `--help`, and by nothing else.
pub proof fn law_help_is_asked_for(t: Tok)
    ensures
        wants_help(seq![t]) == (t == Tok::Short('h') || t == Tok::Long("help"@)),
        !wants_help(Seq::empty()),
{
    let ts = seq![t];
    assert(ts[0] == t);
    assert(ts.contains(t));
}

/// Missing files are passed over with `-f` or `--force`, and with nothing else.
pub proof fn law_force(t: Tok)
    ensures
        is_forced(seq![t]) == (t == Tok::Short('f') || t == Tok::Long("force"@)),
        !is_forced(Seq::empty()),
{
    let ts = seq![t];
    assert(ts[0] == t);
    assert(ts.contains(t));
}

/// A removal changes nothing of what rm was asked for.
pub proof fn law_what_stays(a: Rm, b: Rm)
    ensures
        a.alike(b) ==> a.recursive == b.recursive && a.force == b.force && a.verbose == b.verbose
            && a.files == b.files,
{
}

} // verus!
