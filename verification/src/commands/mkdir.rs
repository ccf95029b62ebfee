//! mkdir - make directories
use vstd::prelude::*;
use vstd::string::StringExecFns;
use crate::args::{arg_tokens, has_long, has_short, lex_args, values, values_from, Tok};
use crate::commands::{Said, Start};
use crate::error::IoError;
use crate::list::{strings_of, Strings};
use crate::text::strs;

verus! {

/// A running mkdir.
pub struct Mkdir {
    /// Whether missing parents are made too.
    pub parents: bool,
    /// Whether each directory that was made is reported.
    pub verbose: bool,
    /// The directories to make.
    pub dirs: Strings,
    /// The exit code so far.
    pub code: i32,
}

/// What mkdir finds in its arguments.
pub open spec fn mkdir_tokens(argv: Seq<Seq<char>>) -> Seq<Tok> {
    arg_tokens(argv, Seq::empty(), false)
}

/// Starts mkdir.
pub fn run(argv: &Vec<String>) -> (r: Start<Mkdir>)
    ensures
        ({
            let ts = mkdir_tokens(strs(argv@));
            match r {
                Start::Done(said) => values_from(ts, 0).len() == 0 && said.says(
                    Seq::empty(),
                    "mkdir: missing operand"@ + seq!['\n'],
                    1,
                ),
                Start::Go(m) => values_from(ts, 0).len() > 0 && strings_of(m.dirs) == values_from(
                    ts,
                    0,
                ) && m.parents == (ts.contains(Tok::Short('p')) || ts.contains(
                    Tok::Long("parents"@),
                )) && m.verbose == (ts.contains(Tok::Short('v')) || ts.contains(
                    Tok::Long("verbose"@),
                )) && m.code == 0,
            }
        }),
{
    let none: Vec<char> = Vec::new();
    proof {
        assert(none@ =~= Seq::<char>::empty());
    }
    let ts = lex_args(argv, &none, false);
    let dirs = values(&ts);
    if dirs.len() == 0 {
        return Start::Done(Said::complaint("mkdir: missing operand", 1));
    }
    Start::Go(
        Mkdir {
            parents: has_short(&ts, 'p') || has_long(&ts, "parents"),
            verbose: has_short(&ts, 'v') || has_long(&ts, "verbose"),
            dirs,
            code: 0,
        },
    )
}

impl Mkdir {
    /// What is said of a directory that was made, or could not be. A failure makes
    /// the exit code 1.
    pub fn made(&mut self, path: &str, result: std::result::Result<(), IoError>) -> (r: Said)
        ensures
            final(self).parents == old(self).parents,
            final(self).verbose == old(self).verbose,
            final(self).dirs == old(self).dirs,
            final(self).code == r.code,
            match result {
                Err(e) => r.says(
                    Seq::empty(),
                    "mkdir: cannot create directory '"@ + path@ + "': "@ + e.spec_message()
                        + "\n"@,
                    1,
                ),
                Ok(_) => r.says(
                    if old(self).verbose {
                        "mkdir: created directory '"@ + path@ + "'\n"@
                    } else {
                        Seq::empty()
                    },
                    Seq::empty(),
                    old(self).code as int,
                ),
            },
    {
        let mut out = String::new();
        let mut err = String::new();
        match result {
            Err(e) => {
                err = "mkdir: cannot create directory '".to_owned();
                err.append(path);
                err.append("': ");
                let m = e.message();
                err.append(m.as_str());
                err.append("\n");
                self.code = 1;
            },
            Ok(_) => {
                if self.verbose {
                    out = "mkdir: created directory '".to_owned();
                    out.append(path);
                    out.append("'\n");
                }
            },
        }
        Said { out, err, code: self.code }
    }
}

/// No option takes a value; the first argument is the name of the command.
pub proof fn law_options_with_values(name: Seq<char>, args: Seq<Seq<char>>)
    ensures
        mkdir_tokens(seq![name] + args) == crate::args::tokens(args, Seq::empty(), false),
        mkdir_tokens(Seq::empty()).len() == 0,
{
    assert((seq![name] + args).skip(1) =~= args);
}

} // verus!
