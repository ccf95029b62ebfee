//! Shell builtins.
//!
//! These commands can change the shell that runs them.
use vstd::prelude::*;
use vstd::string::StringExecFns;
use crate::commands::{Exit, Said};
use crate::context::CmdContext;
use crate::list::{pairs_of, strings_of, Pairs, Strings};
use crate::num::{parse_i32, read_i32};
use crate::text::{find_char, find_from, lemma_find_from, str_eq, strs, text_part, to_chars};

verus! {

impl CmdContext {
    /// The arguments behind the command name.
    pub open spec fn params(self) -> Seq<Seq<char>> {
        if self.argv@.len() > 0 {
            strs(self.argv@).skip(1)
        } else {
            Seq::empty()
        }
    }
}

/// The directory that cd goes to: the one that is given, else the home directory,
/// else the root.
pub open spec fn cd_target(ctx: CmdContext) -> Seq<char> {
    if ctx.params().len() > 0 {
        ctx.params()[0]
    } else if ctx.env@.dom().contains("HOME"@) {
        ctx.env@["HOME"@]
    } else {
        "/"@
    }
}

/// cd [dir] - change directory
pub fn cd(ctx: &CmdContext) -> (r: Exit)
    ensures
        ({
            let target = cd_target(*ctx);
            if ctx.has_dir(ctx.absolute(target)) {
                r.said.says(Seq::empty(), Seq::empty(), 0) && r.effects.are(
                    Some(ctx.absolute(target)),
                    Seq::empty(),
                    Seq::empty(),
                    None,
                )
            } else {
                r.said.says(
                    Seq::empty(),
                    "cd: "@ + target + ": No such directory\n"@,
                    1,
                ) && r.effects.are_none()
            }
        }),
{
    let target: &str = if ctx.argv.len() > 1 {
        proof {
            assert(ctx.params()[0] == ctx.argv@[1]@);
        }
        ctx.argv[1].as_str()
    } else {
        match ctx.getenv("HOME") {
            Some(home) => home,
            None => "/",
        }
    };
    let resolved = ctx.resolve_path(target);
    if !ctx.is_dir(resolved.as_str()) {
        let mut err = "cd: ".to_owned();
        err.append(target);
        err.append(": No such directory\n");
        return Exit::saying(Said { out: String::new(), err, code: 1 });
    }
    let mut r = Exit::success();
    r.effects.cwd = Some(resolved);
    r
}

/// pwd - print working directory
pub fn pwd(ctx: &CmdContext) -> (r: Exit)
    ensures
        r.said.says(ctx.cwd@ + "\n"@, Seq::empty(), 0),
        r.effects.are_none(),
{
    let mut out = ctx.cwd.clone();
    out.append("\n");
    Exit::saying(Said { out, err: String::new(), code: 0 })
}

/// The variables that the arguments from `i` on set: each argument with a `=` in it
/// sets the name before its first `=` to the text behind it.
pub open spec fn assignments_from(args: Seq<Seq<char>>, i: int) -> Seq<(Seq<char>, Seq<char>)>
    decreases args.len() - i,
{
    if i < 0 || i >= args.len() {
        Seq::empty()
    } else {
        let a = args[i];
        let k = find_from(a, '=', 0);
        if k < a.len() {
            seq![(a.take(k), a.skip(k + 1))] + assignments_from(args, i + 1)
        } else {
            assignments_from(args, i + 1)
        }
    }
}

/// export [name=value...] - set environment variables
pub fn export(ctx: &CmdContext) -> (r: Exit)
    ensures
        r.said.says(Seq::empty(), Seq::empty(), 0),
        r.effects.are(None, assignments_from(ctx.params(), 0), Seq::empty(), None),
{
    let ghost args = ctx.params();
    let mut env_set = Pairs::new();
    let mut i: usize = 1;
    proof {
        assert(pairs_of(env_set) + assignments_from(args, 0) =~= assignments_from(args, 0));
    }
    while i < ctx.argv.len()
        invariant
            args == ctx.params(),
            1 <= i,
            if ctx.argv@.len() == 0 {
                i == 1
            } else {
                i <= ctx.argv@.len()
            },
            pairs_of(env_set) + assignments_from(args, i - 1) == assignments_from(args, 0),
        decreases ctx.argv@.len() - i,
    {
        let ghost before = pairs_of(env_set);
        proof {
            assert(args[i - 1] == ctx.argv@[i as int]@);
        }
        let cs = to_chars(ctx.argv[i].as_str());
        let k = find_char(&cs, '=', 0);
        proof {
            lemma_find_from(cs@, '=', 0);
        }
        if k < cs.len() {
            let name = text_part(&cs, 0, k);
            let value = text_part(&cs, k + 1, cs.len());
            proof {
                assert(name@ =~= cs@.take(k as int));
                assert(value@ =~= cs@.skip(k + 1));
            }
            env_set.push((name, value));
            proof {
                assert(pairs_of(env_set) + assignments_from(args, i as int) =~= before
                    + assignments_from(args, i - 1));
            }
        }
        i += 1;
    }
    proof {
        assert(pairs_of(env_set) =~= assignments_from(args, 0));
    }
    let mut r = Exit::success();
    r.effects.env_set = env_set;
    r
}

/// unset name... - unset environment variables
pub fn unset(ctx: &CmdContext) -> (r: Exit)
    ensures
        r.said.says(Seq::empty(), Seq::empty(), 0),
        r.effects.are(None, Seq::empty(), ctx.params(), None),
{
    let ghost args = ctx.params();
    let mut env_unset = Strings::new();
    let mut i: usize = 1;
    while i < ctx.argv.len()
        invariant
            args == ctx.params(),
            1 <= i,
            if ctx.argv@.len() == 0 {
                i == 1
            } else {
                i <= ctx.argv@.len()
            },
            strings_of(env_unset) == args.take(i - 1),
        decreases ctx.argv@.len() - i,
    {
        proof {
            assert(args[i - 1] == ctx.argv@[i as int]@);
            assert(args.take(i as int) =~= args.take(i - 1).push(args[i - 1]));
        }
        env_unset.push(ctx.argv[i].clone());
        i += 1;
    }
    proof {
        assert(args.take(i - 1) =~= args);
    }
    let mut r = Exit::success();
    r.effects.env_unset = env_unset;
    r
}

/// exit [code] - exit the shell. What is no number counts as 0.
pub fn exit(ctx: &CmdContext) -> (r: Exit)
    ensures
        r.said.says(
            Seq::empty(),
            Seq::empty(),
            if ctx.params().len() > 0 {
                match read_i32(ctx.params()[0]) {
                    Some(n) => n,
                    None => 0,
                }
            } else {
                0
            },
        ),
        r.effects.are_none(),
{
    if ctx.argv.len() > 1 {
        proof {
            assert(ctx.params()[0] == ctx.argv@[1]@);
        }
        let cs = to_chars(ctx.argv[1].as_str());
        match parse_i32(&cs) {
            Some(n) => Exit::code(n),
            None => Exit::code(0),
        }
    } else {
        Exit::success()
    }
}

/// true - return success
pub fn cmd_true(_ctx: &CmdContext) -> (r: Exit)
    ensures
        r.said.says(Seq::empty(), Seq::empty(), 0),
        r.effects.are_none(),
{
    Exit::success()
}

/// false - return failure
pub fn cmd_false(_ctx: &CmdContext) -> (r: Exit)
    ensures
        r.said.says(Seq::empty(), Seq::empty(), 1),
        r.effects.are_none(),
{
    Exit::code(1)
}

/// : - no-op (colon command)
pub fn colon(_ctx: &CmdContext) -> (r: Exit)
    ensures
        r.said.says(Seq::empty(), Seq::empty(), 0),
        r.effects.are_none(),
{
    Exit::success()
}

/// Whether a row of pairs holds each variable of an environment once, with its value.
pub open spec fn lists(vars: Map<Seq<char>, Seq<char>>, row: Seq<(Seq<char>, Seq<char>)>) -> bool {
    &&& row.len() == vars.dom().len()
    &&& forall|i: int| 0 <= i < row.len() ==> vars.contains_pair((#[trigger] row[i]).0, row[i].1)
    &&& forall|i: int, j: int|
        0 <= i < j < row.len() ==> (#[trigger] row[i]).0 != (#[trigger] row[j]).0
}

/// The variables of a row from `i` on, one on each line.
pub open spec fn env_lines(row: Seq<(Seq<char>, Seq<char>)>, i: int) -> Seq<char>
    decreases row.len() - i,
{
    if i < 0 || i >= row.len() {
        Seq::empty()
    } else {
        row[i].0 + "="@ + row[i].1 + "\n"@ + env_lines(row, i + 1)
    }
}

/// Whether a text holds each variable of an environment once, as `name=value` on a
/// line of its own. Nothing is said about the order.
pub open spec fn is_env_text(vars: Map<Seq<char>, Seq<char>>, text: Seq<char>) -> bool {
    exists|row: Seq<(Seq<char>, Seq<char>)>| #[trigger] lists(vars, row) && text == env_lines(row, 0)
}

fn print_env(ctx: &CmdContext) -> (out: String)
    ensures
        is_env_text(ctx.env@, out@),
{
    let vars = ctx.env_iter();
    let ghost row = Seq::new(vars@.len(), |i: int| (vars@[i].0@, vars@[i].1@));
    let mut out = String::new();
    let mut i: usize = 0;
    proof {
        assert(lists(ctx.env@, row)) by {
            assert forall|i: int| 0 <= i < row.len() implies ctx.env@.contains_pair(
                (#[trigger] row[i]).0,
                row[i].1,
            ) by {
                assert(ctx.env@.contains_pair(vars@[i].0@, vars@[i].1@));
            }
            assert forall|i: int, j: int| 0 <= i < j < row.len() implies (#[trigger] row[i]).0 != (
            #[trigger] row[j]).0 by {
                assert(vars@[i].0@ != vars@[j].0@);
            }
        }
        assert(out@ + env_lines(row, 0) =~= env_lines(row, 0));
    }
    while i < vars.len()
        invariant
            i <= vars@.len(),
            row == Seq::new(vars@.len(), |i: int| (vars@[i].0@, vars@[i].1@)),
            out@ + env_lines(row, i as int) == env_lines(row, 0),
        decreases vars@.len() - i,
    {
        let ghost before = out@;
        let (key, value) = vars[i];
        out.append(key);
        out.append("=");
        out.append(value);
        out.append("\n");
        proof {
            let line = row[i as int].0 + "="@ + row[i as int].1 + "\n"@;
            assert(out@ =~= before + line);
            assert(before + line + env_lines(row, i + 1) =~= before + (line + env_lines(
                row,
                i + 1,
            )));
        }
        i += 1;
    }
    proof {
        assert(out@ =~= env_lines(row, 0));
    }
    out
}

/// env - print environment variables
pub fn env(ctx: &CmdContext) -> (r: Exit)
    ensures
        is_env_text(ctx.env@, r.said.out@),
        r.said.err@ == Seq::<char>::empty(),
        r.said.code == 0,
        r.effects.are_none(),
{
    let out = print_env(ctx);
    Exit::saying(Said { out, err: String::new(), code: 0 })
}

/// What the arguments of set from `i` on make of the pipefail option, or the
/// complaint and the exit code.
pub open spec fn set_from(args: Seq<Seq<char>>, i: int, pipefail: Option<bool>) -> Result<
    Option<bool>,
    (Seq<char>, int),
>
    decreases args.len() - i,
{
    if i < 0 || i >= args.len() {
        Ok(pipefail)
    } else if args[i] != "-o"@ && args[i] != "+o"@ {
        Err(("set: unknown argument: "@ + args[i] + "\n"@, 1))
    } else if i + 1 >= args.len() {
        Err(("set: "@ + args[i] + " requires an option name\n"@, 2))
    } else if args[i + 1] != "pipefail"@ {
        Err(("set: unknown option: "@ + args[i + 1] + "\n"@, 1))
    } else {
        set_from(args, i + 2, Some(args[i] == "-o"@))
    }
}

/// set - set shell options
///
/// Options:
///   -o pipefail    Pipeline returns first non-zero exit code
///   +o pipefail    Pipeline returns last exit code (default)
///
/// Without arguments: print environment variables.
pub fn set(ctx: &CmdContext) -> (r: Exit)
    ensures
        ctx.params().len() == 0 ==> is_env_text(ctx.env@, r.said.out@) && r.said.err@ == Seq::<
            char,
        >::empty() && r.said.code == 0 && r.effects.are_none(),
        ctx.params().len() > 0 ==> match set_from(ctx.params(), 0, None) {
            Ok(pipefail) => r.said.says(Seq::empty(), Seq::empty(), 0) && r.effects.are(
                None,
                Seq::empty(),
                Seq::empty(),
                pipefail,
            ),
            Err((err, code)) => r.said.says(Seq::empty(), err, code) && r.effects.are_none(),
        },
{
    if ctx.argv.len() <= 1 {
        return env(ctx);
    }
    let ghost args = ctx.params();
    let mut pipefail: Option<bool> = None;
    let mut i: usize = 1;
    while i < ctx.argv.len()
        invariant
            args == ctx.params(),
            1 <= i,
            ctx.argv@.len() > 1,
            set_from(args, i - 1, pipefail) == set_from(args, 0, None),
        decreases ctx.argv@.len() - i,
    {
        proof {
            assert(args[i - 1] == ctx.argv@[i as int]@);
        }
        let arg = ctx.argv[i].as_str();
        let on = str_eq(arg, "-o");
        if !on && !str_eq(arg, "+o") {
            let mut err = "set: unknown argument: ".to_owned();
            err.append(arg);
            err.append("\n");
            return Exit::saying(Said { out: String::new(), err, code: 1 });
        }
        if i + 1 >= ctx.argv.len() {
            let mut err = "set: ".to_owned();
            err.append(arg);
            err.append(" requires an option name\n");
            return Exit::saying(Said { out: String::new(), err, code: 2 });
        }
        proof {
            assert(args[i as int] == ctx.argv@[i + 1]@);
        }
        let option = ctx.argv[i + 1].as_str();
        if !str_eq(option, "pipefail") {
            let mut err = "set: unknown option: ".to_owned();
            err.append(option);
            err.append("\n");
            return Exit::saying(Said { out: String::new(), err, code: 1 });
        }
        pipefail = Some(on);
        i += 2;
    }
    let mut r = Exit::success();
    r.effects.pipefail = pipefail;
    r
}

/// Where cd goes: to its argument, else to the home directory, else to the root.
pub proof fn law_where_cd_goes(ctx: CmdContext)
    ensures
        ctx.argv@.len() > 1 ==> cd_target(ctx) == ctx.argv@[1]@,
        ctx.argv@.len() <= 1 && ctx.env@.dom().contains("HOME"@) ==> cd_target(ctx)
            == ctx.env@["HOME"@],
        ctx.argv@.len() <= 1 && !ctx.env@.dom().contains("HOME"@) ==> cd_target(ctx) == seq!['/'],
{
    reveal_strlit("/");
    assert("/"@ =~= seq!['/']);
}

/// An argument sets the variable before its first equals sign to what stands behind that; an
/// argument without one sets nothing.
pub proof fn law_assignments(
    args: Seq<Seq<char>>,
    i: int,
    name: Seq<char>,
    value: Seq<char>,
)
    requires
        0 <= i < args.len(),
        forall|k: int| 0 <= k < name.len() ==> #[trigger] name[k] != '=',
    ensures
        args[i] == name + seq!['='] + value ==> assignments_from(args, i) == seq![(name, value)]
            + assignments_from(args, i + 1),
        args[i] == name ==> assignments_from(args, i) == assignments_from(args, i + 1),
        assignments_from(args, args.len() as int).len() == 0,
{
    let a = name + seq!['='] + value;
    let n = name.len() as int;
    assert forall|k: int| 0 <= k < n implies a[k] != '=' by {
        assert(a[k] == name[k]);
    }
    assert(a[n] == '=');
    crate::text::lemma_find_is(a, '=', 0, n);
    crate::text::lemma_find_is(name, '=', 0, n);
    assert(a.take(n) =~= name);
    assert(a.skip(n + 1) =~= value);
}

/// The environment is printed with a line for each variable: its name, an equals sign and its
/// value.
pub proof fn law_lines_of_the_environment(
    row: Seq<(Seq<char>, Seq<char>)>,
    name: Seq<char>,
    value: Seq<char>,
)
    ensures
        env_lines(Seq::empty(), 0).len() == 0,
        env_lines(row.push((name, value)), 0) == env_lines(row, 0) + name + seq!['='] + value
            + seq!['\n'],
{
    reveal_strlit("=");
    reveal_strlit("\n");
    assert("="@ =~= seq!['=']);
    assert("\n"@ =~= seq!['\n']);
    lemma_env_grows(row, (name, value), 0);
    assert(env_lines(row, 0) + (name + "="@ + value + "\n"@) =~= env_lines(row, 0) + name + seq!['=']
        + value + seq!['\n']);
}

proof fn lemma_env_grows(row: Seq<(Seq<char>, Seq<char>)>, last: (Seq<char>, Seq<char>), i: int)
    requires
        0 <= i <= row.len(),
    ensures
        env_lines(row.push(last), i) == env_lines(row, i) + (last.0 + "="@ + last.1 + "\n"@),
    decreases row.len() - i,
{
    let all = row.push(last);
    reveal_with_fuel(env_lines, 2);
    if i < row.len() {
        assert(all[i] == row[i]);
        lemma_env_grows(row, last, i + 1);
    } else {
        assert(all[i] == last);
    }
    assert(env_lines(all, i) =~= env_lines(row, i) + (last.0 + "="@ + last.1 + "\n"@));
}

/// `-o` switches an option on and `+o` switches it off; the last of them counts. There is one
/// option, and anything else is refused.
pub proof fn law_set_options(args: Seq<Seq<char>>, i: int, pipefail: Option<bool>)
    requires
        0 <= i < args.len(),
    ensures
        i + 1 < args.len() && args[i] == "-o"@ && args[i + 1] == "pipefail"@ ==> set_from(
            args,
            i,
            pipefail,
        ) == set_from(args, i + 2, Some(true)),
        i + 1 < args.len() && args[i] == "+o"@ && args[i + 1] == "pipefail"@ ==> set_from(
            args,
            i,
            pipefail,
        ) == set_from(args, i + 2, Some(false)),
        set_from(args, args.len() as int, pipefail) == Ok::<Option<bool>, (Seq<char>, int)>(
            pipefail,
        ),
        i + 1 < args.len() && (args[i] == "-o"@ || args[i] == "+o"@) && args[i + 1] != "pipefail"@
            ==> set_from(args, i, pipefail) == Err::<Option<bool>, (Seq<char>, int)>(
            ("set: unknown option: "@ + args[i + 1] + "\n"@, 1),
        ),
        i + 1 == args.len() && (args[i] == "-o"@ || args[i] == "+o"@) ==> set_from(
            args,
            i,
            pipefail,
        ) == Err::<Option<bool>, (Seq<char>, int)>(
            ("set: "@ + args[i] + " requires an option name\n"@, 2),
        ),
        args[i] != "-o"@ && args[i] != "+o"@ ==> set_from(args, i, pipefail) == Err::<
            Option<bool>,
            (Seq<char>, int),
        >(("set: unknown argument: "@ + args[i] + "\n"@, 1)),
{
    reveal_strlit("-o");
    reveal_strlit("+o");
    assert("-o"@[0] == '-' && "+o"@[0] == '+');
}

} // verus!
