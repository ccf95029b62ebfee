//! sh - shell command interpreter
//!
//! Executes shell commands from a string or script file. The commands run in a
//! shell of their own, so that what they change stays there.
use vstd::prelude::*;
use vstd::string::StringExecFns;
use vstd::utf8::{decode_utf8, valid_utf8};
use crate::commands::{refusal, refusal_line, Said, Start};
use crate::context::CmdContext;
use crate::env::Environment;
use crate::error::IoError;
use crate::num::{
    decimal, law_decimals_differ, law_one_digit, lemma_decimal_reads_back, write_decimal,
};
use crate::text::{
    join, join_strings, lemma_strs_push, lines, rows, split_lines, str_eq, strings_from, strs, to_chars,
    to_text, trim, trim_chars,
};
use crate::unicode::read_utf8;

verus! {

/// Where the commands come from.
#[derive(Debug)]
pub enum Script {
    /// From the argument behind `-c`.
    Text(String),
    /// From a file.
    File(String),
    /// From stdin.
    Stdin,
}

/// What sh was asked for.
#[derive(Debug)]
pub struct Sh {
    /// Where the commands come from.
    pub script: Script,
    /// `$0`, `$1`, and so on.
    pub positional: Vec<String>,
}

/// sh [-c command] [script] [args...]
///
/// Options:
///   -c string    Execute commands from string
///
/// If neither -c nor script is provided, reads from stdin.
pub fn run(argv: &Vec<String>) -> (r: Start<Sh>)
    ensures
        ({
            let args = strs(argv@);
            if args.len() <= 1 {
                r matches Start::Go(sh) && sh.script is Stdin && sh.positional@.len() == 0
            } else if args[1] == "-c"@ {
                if args.len() < 3 {
                    r matches Start::Done(said) && said.says(
                        Seq::empty(),
                        "sh: -c requires an argument"@ + seq!['\n'],
                        2,
                    )
                } else {
                    r matches Start::Go(sh) && (sh.script matches Script::Text(s) && s@ == args[2])
                        && strs(sh.positional@) == args.skip(3)
                }
            } else if args[1].len() > 0 && args[1][0] == '-' {
                r matches Start::Done(said) && said.says(
                    Seq::empty(),
                    "sh: unknown option: "@ + args[1] + "\n"@,
                    2,
                )
            } else {
                r matches Start::Go(sh) && (sh.script matches Script::File(s) && s@ == args[1])
                    && strs(sh.positional@) == args.skip(2)
            }
        }),
{
    if argv.len() <= 1 {
        return Start::Go(Sh { script: Script::Stdin, positional: Vec::new() });
    }
    let first = argv[1].as_str();
    let cs = to_chars(first);
    if str_eq(first, "-c") {
        if argv.len() < 3 {
            return Start::Done(Said::complaint("sh: -c requires an argument", 2));
        }
        return Start::Go(
            Sh { script: Script::Text(argv[2].clone()), positional: strings_from(argv, 3) },
        );
    }
    if cs.len() > 0 && cs[0] == '-' {
        let mut err = "sh: unknown option: ".to_owned();
        err.append(first);
        err.append("\n");
        return Start::Done(Said { out: String::new(), err, code: 2 });
    }
    Start::Go(Sh { script: Script::File(argv[1].clone()), positional: strings_from(argv, 2) })
}

/// Reads the bytes of a script: those of a file, or those of stdin.
pub fn script_text(bytes: Vec<u8>, file: Option<&str>) -> (r: Result<String, Said>)
    ensures
        match r {
            Ok(s) => valid_utf8(bytes@) && s@ == decode_utf8(bytes@),
            Err(said) => !valid_utf8(bytes@) && said.says(
                Seq::empty(),
                match file {
                    Some(f) => "sh: "@ + f@ + ": invalid UTF-8\n"@,
                    None => "sh: stdin: invalid UTF-8\n"@,
                },
                1,
            ),
        },
{
    match read_utf8(bytes) {
        Some(s) => Ok(s),
        None => {
            let err = match file {
                Some(f) => {
                    let mut err = "sh: ".to_owned();
                    err.append(f);
                    err.append(": invalid UTF-8\n");
                    err
                },
                None => "sh: stdin: invalid UTF-8\n".to_owned(),
            };
            Err(Said { out: String::new(), err, code: 1 })
        },
    }
}

/// What is said of a script that cannot be read.
pub fn unreadable(file: &str, e: &IoError) -> (r: Said)
    ensures
        r.says(Seq::empty(), refusal("sh"@, file@, e.spec_message()), 1),
{
    Said { out: String::new(), err: refusal_line("sh", file, e), code: 1 }
}

// ---------------------------------------------------------------------------
// Parameters
// ---------------------------------------------------------------------------

/// Variables with the first `n` parameters among them: `1`, `2`, and so on.
pub open spec fn numbered(
    vars: Map<Seq<char>, Seq<char>>,
    positional: Seq<Seq<char>>,
    n: int,
) -> Map<Seq<char>, Seq<char>>
    decreases n,
{
    if n <= 0 {
        vars
    } else {
        numbered(vars, positional, n - 1).insert(decimal(n as nat), positional[n])
    }
}

/// Variables with the parameters among them: `0`, `1`, `2` and so on, their number
/// without `0`, and twice all of them without `0`.
pub open spec fn with_positional(
    vars: Map<Seq<char>, Seq<char>>,
    positional: Seq<Seq<char>>,
) -> Map<Seq<char>, Seq<char>> {
    if positional.len() == 0 {
        vars.insert("0"@, "sh"@).insert("#"@, "0"@).insert("@"@, ""@).insert("*"@, ""@)
    } else {
        let joined = join(positional.skip(1), " "@);
        numbered(vars.insert("0"@, positional[0]), positional, positional.len() - 1).insert(
            "#"@,
            decimal((positional.len() - 1) as nat),
        ).insert("@"@, joined).insert("*"@, joined)
    }
}

/// The environment that the commands run in.
pub fn child_env(ctx: &CmdContext, positional: &Vec<String>) -> (r: Environment)
    ensures
        r@ == with_positional(ctx.env@, strs(positional@)),
        forall|k: int|
            1 <= k < positional@.len() ==> #[trigger] r@.contains_pair(
                decimal(k as nat),
                positional@[k]@,
            ),
{
    let ghost all = strs(positional@);
    proof {
        law_parameters_are_numbered(ctx.env@, all, Seq::empty());
        assert forall|k: int| 1 <= k < positional@.len() implies #[trigger] with_positional(
            ctx.env@,
            all,
        ).contains_pair(decimal(k as nat), positional@[k]@) by {
            assert(all[k] == positional@[k]@);
            assert(with_positional(ctx.env@, all).contains_pair(decimal(k as nat), all[k]));
        }
    }
    let mut env = ctx.env_clone();
    if positional.len() == 0 {
        env.set("0", "sh");
        env.set("#", "0");
        env.set("@", "");
        env.set("*", "");
        return env;
    }
    proof {
        assert(all[0] == positional@[0]@);
    }
    env.set("0", positional[0].as_str());
    let ghost base = env@;
    let mut i: usize = 1;
    while i < positional.len()
        invariant
            1 <= i <= positional@.len(),
            all == strs(positional@),
            env@ == numbered(base, all, i - 1),
        decreases positional@.len() - i,
    {
        proof {
            assert(all[i as int] == positional@[i as int]@);
        }
        let name = to_text(&write_decimal(i as u64));
        env.set(name.as_str(), positional[i].as_str());
        i += 1;
    }
    let count = to_text(&write_decimal((positional.len() - 1) as u64));
    env.set("#", count.as_str());
    let joined = join_strings(positional, 1, " ");
    env.set("@", joined.as_str());
    env.set("*", joined.as_str());
    env
}

// ---------------------------------------------------------------------------
// Commands
// ---------------------------------------------------------------------------

/// The commands of the lines from `i` on: blank lines and comments are left out.
pub open spec fn commands_from(ls: Seq<Seq<char>>, i: int) -> Seq<Seq<char>>
    decreases ls.len() - i,
{
    if i < 0 || i >= ls.len() {
        Seq::empty()
    } else {
        let line = trim(ls[i]);
        if line.len() == 0 || line[0] == '#' {
            commands_from(ls, i + 1)
        } else {
            seq![line] + commands_from(ls, i + 1)
        }
    }
}

/// The commands of a script, one for each line.
pub open spec fn commands(script: Seq<char>) -> Seq<Seq<char>> {
    commands_from(lines(script), 0)
}

/// A script that runs: its commands are executed one after the other, and the
/// exit code is that of the last one.
#[derive(Debug)]
pub struct Run {
    /// The commands.
    pub commands: Vec<String>,
    /// How many of them have been executed.
    pub done: usize,
    /// The exit code of the last one.
    pub code: i32,
}

impl Run {
    /// Starts a script.
    pub fn new(script: &str) -> (r: Run)
        ensures
            strs(r.commands@) == commands(script@),
            r.done == 0,
            r.code == 0,
    {
        let cs = to_chars(script);
        let ls = split_lines(&cs);
        let ghost all = lines(script@);
        let mut out: Vec<String> = Vec::new();
        let mut i: usize = 0;
        proof {
            assert(strs(out@) + commands_from(all, 0) =~= commands_from(all, 0));
        }
        while i < ls.len()
            invariant
                i <= ls@.len(),
                rows(ls@) == all,
                strs(out@) + commands_from(all, i as int) == commands_from(all, 0),
            decreases ls@.len() - i,
        {
            let ghost before = out@;
            proof {
                assert(all[i as int] == ls@[i as int]@);
            }
            let line = trim_chars(&ls[i]);
            if !(line.len() == 0 || line[0] == '#') {
                let s = to_text(&line);
                out.push(s);
                proof {
                    lemma_strs_push(before, s);
                    assert(strs(out@) + commands_from(all, i + 1) =~= strs(before) + commands_from(
                        all,
                        i as int,
                    ));
                }
            }
            i += 1;
        }
        proof {
            assert(strs(out@) =~= commands_from(all, 0));
        }
        Run { commands: out, done: 0, code: 0 }
    }

    /// The command to execute next, or the end.
    pub fn next(&self) -> (r: Option<&str>)
        ensures
            match r {
                Some(s) => self.done < self.commands@.len() && s@
                    == self.commands@[self.done as int]@,
                None => self.done >= self.commands@.len(),
            },
    {
        if self.done < self.commands.len() {
            Some(self.commands[self.done].as_str())
        } else {
            None
        }
    }

    /// Takes the exit code of the command that was executed.
    pub fn executed(&mut self, code: i32)
        requires
            old(self).done < old(self).commands@.len(),
        ensures
            final(self).commands == old(self).commands,
            final(self).done == old(self).done + 1,
            final(self).code == code,
    {
        if self.done < self.commands.len() {
            self.done = self.done + 1;
        }
        self.code = code;
    }
}

/// What is said of a command that the shell could not execute. It ends the script.
pub fn failed(message: &str) -> (r: Said)
    ensures
        r.says(Seq::empty(), "sh: "@ + message@ + "\n"@, 1),
{
    let mut err = "sh: ".to_owned();
    err.append(message);
    err.append("\n");
    Said { out: String::new(), err, code: 1 }
}

/// No command of a script is empty or a comment, or has white space at an end.
pub proof fn law_commands_are_trimmed(script: Seq<char>, i: int)
    requires
        0 <= i < commands(script).len(),
    ensures
        ({
            let c = commands(script)[i];
            c.len() > 0 && c[0] != '#' && !crate::text::is_space(c[0]) && !crate::text::is_space(
                c.last(),
            )
        }),
{
    lemma_commands(lines(script), 0, i);
}

proof fn lemma_commands(ls: Seq<Seq<char>>, from: int, i: int)
    requires
        0 <= i < commands_from(ls, from).len(),
    ensures
        ({
            let c = commands_from(ls, from)[i];
            c.len() > 0 && c[0] != '#' && !crate::text::is_space(c[0]) && !crate::text::is_space(
                c.last(),
            )
        }),
    decreases ls.len() - from,
{
    let line = trim(ls[from]);
    if line.len() == 0 || line[0] == '#' {
        lemma_commands(ls, from + 1, i);
    } else if i > 0 {
        assert(commands_from(ls, from)[i] == commands_from(ls, from + 1)[i - 1]);
        lemma_commands(ls, from + 1, i - 1);
    } else {
        lemma_trimmed(ls[from]);
    }
}

proof fn lemma_trimmed(s: Seq<char>)
    ensures
        trim(s).len() > 0 ==> !crate::text::is_space(trim(s)[0]) && !crate::text::is_space(
            trim(s).last(),
        ),
    decreases s.len(),
{
    if s.len() > 0 {
        if crate::text::is_space(s[0]) {
            lemma_trimmed(s.drop_first());
        } else if crate::text::is_space(s.last()) {
            lemma_trimmed(s.drop_last());
        }
    }
}

proof fn lemma_numbered(
    vars: Map<Seq<char>, Seq<char>>,
    positional: Seq<Seq<char>>,
    n: int,
    name: Seq<char>,
)
    requires
        0 <= n,
    ensures
        forall|k: int|
            1 <= k <= n ==> #[trigger] numbered(vars, positional, n).contains_pair(
                decimal(k as nat),
                positional[k],
            ),
        (forall|k: int| 1 <= k <= n ==> name != #[trigger] decimal(k as nat)) ==> (
        numbered(vars, positional, n).dom().contains(name) == vars.dom().contains(name) && (
        vars.dom().contains(name) ==> numbered(vars, positional, n)[name] == vars[name])),
    decreases n,
{
    if n > 0 {
        lemma_numbered(vars, positional, n - 1, name);
        assert forall|k: int| 1 <= k <= n implies #[trigger] numbered(
            vars,
            positional,
            n,
        ).contains_pair(decimal(k as nat), positional[k]) by {
            if k < n {
                if decimal(k as nat) == decimal(n as nat) {
                    law_decimals_differ(k as nat, n as nat);
                }
                assert(numbered(vars, positional, n - 1).contains_pair(
                    decimal(k as nat),
                    positional[k],
                ));
            }
        }
        if forall|k: int| 1 <= k <= n ==> name != #[trigger] decimal(k as nat) {
            assert(name != decimal(n as nat));
        }
    }
}

proof fn lemma_signs_are_no_numbers(k: nat)
    ensures
        decimal(k) != "#"@,
        decimal(k) != "@"@,
        decimal(k) != "*"@,
        k > 0 ==> decimal(k) != "0"@,
        "#"@ != "@"@,
        "#"@ != "*"@,
        "@"@ != "*"@,
        "0"@ != "#"@,
        "0"@ != "@"@,
        "0"@ != "*"@,
{
    reveal_strlit("#");
    reveal_strlit("@");
    reveal_strlit("*");
    reveal_strlit("0");
    lemma_decimal_reads_back(k);
    assert(crate::text::is_digit(decimal(k)[0]));
    assert("#"@[0] == '#' && "@"@[0] == '@' && "*"@[0] == '*' && "0"@[0] == '0');
    law_one_digit(0);
    assert(decimal(0) =~= "0"@);
    if k > 0 && decimal(k) == "0"@ {
        law_decimals_differ(k, 0);
    }
}

/// The commands of a script find each argument under its number, the number of the
/// arguments under `#`, and all of them under `@` and `*`. Nothing else is changed.
pub proof fn law_parameters_are_numbered(
    vars: Map<Seq<char>, Seq<char>>,
    positional: Seq<Seq<char>>,
    name: Seq<char>,
)
    ensures
        forall|k: int|
            1 <= k < positional.len() ==> #[trigger] with_positional(
                vars,
                positional,
            ).contains_pair(decimal(k as nat), positional[k]),
        with_positional(vars, positional).contains_pair(
            "0"@,
            if positional.len() > 0 {
                positional[0]
            } else {
                "sh"@
            },
        ),
        with_positional(vars, positional).contains_pair(
            "#"@,
            decimal(
                if positional.len() > 0 {
                    (positional.len() - 1) as nat
                } else {
                    0
                },
            ),
        ),
        positional.len() == 2 ==> with_positional(vars, positional).contains_pair(
            "@"@,
            positional[1],
        ),
        positional.len() == 3 ==> with_positional(vars, positional).contains_pair(
            "@"@,
            positional[1] + " "@ + positional[2],
        ),
        positional.len() <= 1 ==> with_positional(vars, positional).contains_pair(
            "@"@,
            Seq::<char>::empty(),
        ),
        with_positional(vars, positional)["*"@] == with_positional(vars, positional)["@"@],
        with_positional(vars, positional).dom().contains("*"@),
        (name != "0"@ && name != "#"@ && name != "@"@ && name != "*"@ && forall|k: int|
            1 <= k < positional.len() ==> name != #[trigger] decimal(k as nat)) ==> (
        with_positional(vars, positional).dom().contains(name) == vars.dom().contains(name) && (
        vars.dom().contains(name) ==> with_positional(vars, positional)[name] == vars[name])),
{
    lemma_signs_are_no_numbers(0);
    reveal_strlit("");
    law_one_digit(0);
    reveal_strlit("0");
    assert(decimal(0) =~= "0"@);
    let all = with_positional(vars, positional);
    if positional.len() > 0 {
        let n = positional.len() - 1;
        let base = vars.insert("0"@, positional[0]);
        let named = numbered(base, positional, n);
        lemma_numbered(base, positional, n, name);
        lemma_numbered(base, positional, n, "0"@);
        assert forall|k: int| 1 <= k <= n implies "0"@ != #[trigger] decimal(k as nat) by {
            lemma_signs_are_no_numbers(k as nat);
        }
        assert forall|k: int| 1 <= k < positional.len() implies #[trigger] all.contains_pair(
            decimal(k as nat),
            positional[k],
        ) by {
            lemma_signs_are_no_numbers(k as nat);
            assert(named.contains_pair(decimal(k as nat), positional[k]));
        }
        reveal_with_fuel(crate::text::join_from, 3);
        if positional.len() == 1 {
            assert(join(positional.skip(1), " "@) =~= Seq::<char>::empty());
        }
    } else {
        assert(""@ =~= Seq::<char>::empty());
    }
}

/// Each line of a script is a command, without the white space at its ends, unless it is empty
/// or a comment; what follows is read on its own.
pub proof fn law_lines_are_commands(line: Seq<char>, rest: Seq<char>)
    requires
        forall|k: int| 0 <= k < line.len() ==> #[trigger] line[k] != '\n' && line[k] != '\r',
    ensures
        commands(Seq::empty()).len() == 0,
        trim(line).len() == 0 || trim(line)[0] == '#' ==> commands(line + seq!['\n'] + rest)
            == commands(rest),
        trim(line).len() > 0 && trim(line)[0] != '#' ==> commands(line + seq!['\n'] + rest) == seq![
            trim(line),
        ] + commands(rest),
        trim(line).len() > 0 && trim(line)[0] != '#' ==> commands(line) == seq![trim(line)],
{
    crate::text::law_lines_end_at_newlines(line, rest);
    lemma_commands_skip(seq![line], lines(rest), 0);
    let all = seq![line] + lines(rest);
    assert(all[0] == line);
    if line.len() > 0 {
        let one = seq![line];
        assert(one[0] == line);
        assert(commands_from(one, 1).len() == 0);
        if trim(line).len() > 0 && trim(line)[0] != '#' {
            assert(commands(line) =~= seq![trim(line)]);
        }
    } else {
        assert(trim(line).len() == 0);
    }
}

proof fn lemma_commands_skip(a: Seq<Seq<char>>, b: Seq<Seq<char>>, i: int)
    requires
        0 <= i <= b.len(),
    ensures
        commands_from(a + b, a.len() + i) == commands_from(b, i),
    decreases b.len() - i,
{
    if i < b.len() {
        assert((a + b)[a.len() + i] == b[i]);
        lemma_commands_skip(a, b, i + 1);
    }
}

} // verus!
