//! time - time a command
use vstd::prelude::*;
use vstd::string::StringExecFns;
use crate::commands::registry::{command_from, get_command, CommandId};
use crate::commands::{Said, Start};
use crate::num::{decimal, law_one_digit, write_decimal, zero_pad, zero_padded};
use crate::round::{
    fraction, fraction_of, law_small_numbers_stay, law_whole_is_nearest, nearest, nearest_of, round53,
    rounded,
};
use crate::text::{push_chars, str_eq, strings_from, strs};

verus! {

pub const HELP: &'static str = "time - time a command\n\nUsage: time COMMAND [ARGS...]\n\nMeasures and reports the elapsed wall-clock time for a command.\nThe timing information is printed to stderr.\n\nNote: In this sandboxed environment, only real (wall-clock) time is available.\nUser and system time are not reported.\n\nExamples:\n  time echo hello     Time the echo command\n  time sleep 1        Time a 1-second sleep\n";

/// A time in seconds, as a mantissa of 53 bits holds it: numerator and denominator.
/// The part below a second is rounded first, and then the sum.
pub open spec fn seconds(nanos: u64) -> (nat, nat) {
    let (below, den) = fraction((nanos % 1_000_000_000) as nat, 1_000_000_000);
    (rounded((nanos / 1_000_000_000) as nat * den + below), den)
}

/// Seconds with three decimal places.
pub open spec fn seconds_text(n: nat, den: nat) -> Seq<char> {
    let t = nearest(n * 1000, den);
    decimal(t / 1000) + "."@ + zero_pad(decimal(t % 1000), 3) + "s"@
}

/// A time as `Y.ZZZs`, or as `XmY.ZZZs` from a minute on.
pub open spec fn time_text(nanos: u64) -> Seq<char> {
    let (n, den) = seconds(nanos);
    if n >= 60 * den {
        decimal(n / (60 * den)) + "m"@ + seconds_text(n % (60 * den), den)
    } else {
        seconds_text(n, den)
    }
}

fn push_seconds(out: &mut String, n: u128, den: u128)
    requires
        0 < den < 0x8_0000_0000_0000_0000_0000,
        n < 60 * den,
    ensures
        final(out)@ == old(out)@ + seconds_text(n as nat, den as nat),
{
    let ghost start = out@;
    let t = nearest_of(n * 1000, den);
    proof {
        assert(t < 60_001) by {
            lemma_quotient(n as nat * 1000, den as nat, 60_000);
        }
    }
    let whole = write_decimal((t / 1000) as u64);
    push_chars(out, &whole);
    out.append(".");
    let ds = write_decimal((t % 1000) as u64);
    let below = zero_padded(&ds, 3);
    out.append(below.as_str());
    out.append("s");
    proof {
        assert(out@ =~= start + seconds_text(n as nat, den as nat));
    }
}

proof fn lemma_quotient(a: nat, d: nat, most: nat)
    requires
        0 < d,
        a < most * d,
    ensures
        nearest(a, d) <= most,
        a / d < most,
{
    let q = a / d;
    assert(q < most) by (nonlinear_arith)
        requires
            q == a / d,
            a < most * d,
            d > 0,
    ;
}

/// Format nanoseconds as "XmY.ZZZs" or "Y.ZZZs".
pub fn format_time(nanos: u64) -> (r: String)
    ensures
        r@ == time_text(nanos),
{
    let (below, den) = fraction_of(nanos % 1_000_000_000, 1_000_000_000);
    let secs = (nanos / 1_000_000_000) as u128;
    proof {
        assert(secs * den < 0x4_4B82_FA0A * den) by (nonlinear_arith)
            requires
                secs < 0x4_4B82_FA0A,
                den > 0,
        ;
    }
    let n = round53(secs * den + below);
    let minute = 60 * den;
    let mut out = String::new();
    if n >= minute {
        proof {
            assert(n < 0x10_0000_0000 * minute);
            lemma_quotient(n as nat, minute as nat, 0x10_0000_0000);
        }
        let mins = write_decimal((n / minute) as u64);
        push_chars(&mut out, &mins);
        out.append("m");
        push_seconds(&mut out, n % minute, den);
    } else {
        push_seconds(&mut out, n, den);
    }
    proof {
        assert(out@ =~= time_text(nanos));
    }
    out
}

/// A command that is timed.
#[derive(Debug)]
pub struct Timed {
    /// The command's arguments: its name comes first.
    pub argv: Vec<String>,
    /// The command, where there is one of that name.
    pub command: Option<CommandId>,
}

/// time COMMAND [ARGS...] - time a command
pub fn run(argv: &Vec<String>) -> (r: Start<Timed>)
    ensures
        ({
            let args = strs(argv@);
            if args.len() > 1 && (args[1] == "--help"@ || args[1] == "-h"@) {
                r matches Start::Done(said) && said.says(HELP@, Seq::empty(), 0)
            } else if args.len() <= 1 {
                r matches Start::Done(said) && said.says(
                    Seq::empty(),
                    "time: missing command"@ + seq!['\n'],
                    1,
                )
            } else {
                r matches Start::Go(t) && strs(t.argv@) == args.skip(1) && t.command
                    == command_from(args[1], 0)
            }
        }),
{
    if argv.len() <= 1 {
        return Start::Done(Said::complaint("time: missing command", 1));
    }
    let name = argv[1].as_str();
    if str_eq(name, "--help") || str_eq(name, "-h") {
        return Start::Done(Said::output(HELP));
    }
    Start::Go(Timed { argv: strings_from(argv, 1), command: get_command(name) })
}

/// What is said where there is no command of the name. The time is reported all the
/// same.
pub fn not_found(name: &str) -> (r: Said)
    ensures
        r.says(Seq::empty(), "time: "@ + name@ + ": command not found\n"@, 127),
{
    let mut err = "time: ".to_owned();
    err.append(name);
    err.append(": command not found\n");
    Said { out: String::new(), err, code: 127 }
}

/// What is said when the command has ended: how long it took, and its exit code,
/// which is 1 where it failed without one. A clock that ran backwards counts as no
/// time.
pub fn finished(code: Option<i32>, start: u64, end: u64) -> (r: Said)
    ensures
        r.says(
            Seq::empty(),
            "\nreal\t"@ + time_text(
                if end > start {
                    (end - start) as u64
                } else {
                    0
                },
            ) + "\n"@,
            match code {
                Some(c) => c as int,
                None => 1,
            },
        ),
{
    let elapsed: u64 = if end > start {
        end - start
    } else {
        0
    };
    let mut err = "\nreal\t".to_owned();
    let text = format_time(elapsed);
    err.append(text.as_str());
    err.append("\n");
    Said {
        out: String::new(),
        err,
        code: match code {
            Some(c) => c,
            None => 1,
        },
    }
}

/// A time of whole seconds is written with its minutes, where it has any, and three zeros
/// behind the point.
pub proof fn law_whole_seconds(s: u64)
    requires
        s * 1_000_000_000 <= u64::MAX,
    ensures
        s < 60 ==> time_text((s * 1_000_000_000) as u64) == decimal(s as nat) + ".000s"@,
        s >= 60 ==> time_text((s * 1_000_000_000) as u64) == decimal((s / 60) as nat) + "m"@
            + decimal((s % 60) as nat) + ".000s"@,
{
    let nanos = (s * 1_000_000_000) as u64;
    assert(nanos % 1_000_000_000 == 0 && nanos / 1_000_000_000 == s);
    assert(fraction(0, 1_000_000_000) == (0nat, 1nat));
    law_small_numbers_stay(s as nat);
    assert(seconds(nanos) == (s as nat, 1nat));
    lemma_whole_text((s % 60) as nat);
    lemma_whole_text(s as nat);
    if s >= 60 {
        assert(time_text(nanos) =~= decimal((s / 60) as nat) + "m"@ + decimal((s % 60) as nat)
            + ".000s"@);
    }
}

proof fn lemma_whole_text(n: nat)
    ensures
        seconds_text(n, 1) == decimal(n) + ".000s"@,
{
    law_whole_is_nearest(n * 1000, 1);
    assert((n * 1000) / 1000 == n && (n * 1000) % 1000 == 0);
    reveal_strlit(".");
    reveal_strlit("s");
    reveal_strlit(".000s");
    law_one_digit(0);
    assert(zero_pad(decimal(0), 3) =~= seq!['0', '0', '0']);
    assert("."@ + seq!['0', '0', '0'] + "s"@ =~= ".000s"@);
    assert(seconds_text(n, 1) =~= decimal(n) + ("."@ + seq!['0', '0', '0'] + "s"@));
}

/// A fraction of a second is written to three places: the nearest of the thousandths.
pub proof fn law_thousandths(t: nat, den: nat)
    requires
        den > 0,
    ensures
        seconds_text(t * den, 1000 * den) == decimal(t / 1000) + "."@ + zero_pad(
            decimal(t % 1000),
            3,
        ) + "s"@,
{
    assert(t * den * 1000 == t * (1000 * den)) by (nonlinear_arith);
    law_whole_is_nearest(t, 1000 * den);
}

} // verus!
