//! echo - display a line of text
use vstd::prelude::*;
use vstd::utf8::encode_utf8;
use crate::commands::Printed;
use crate::escape::{
    escape_at, is_octal, law_escapes, lemma_escape_shift, octal_end, octal_value, read_escape, Escape,
};
use crate::text::{append_char, append_text, join, join_strings, lemma_encode_joined, str_eq, strs, to_chars};

verus! {

pub const HELP: &'static str = "echo - display a line of text\n\nUsage: echo [OPTIONS] [STRING...]\n\nOptions:\n  --help        Show this help message\n  -n            Do not output trailing newline\n  -e            Enable interpretation of backslash escapes\n  -E            Disable interpretation of backslash escapes (default)\n\nEscape sequences (with -e):\n  \\\\    backslash\n  \\n    newline\n  \\t    tab\n  \\r    carriage return\n  \\0NNN octal byte value\n\nExamples:\n  echo hello world        Print 'hello world'\n  echo -n no newline      Print without trailing newline\n  echo -e 'a\\nb'          Print with newline between a and b\n";

/// The bytes that an escape stands for. A code is the byte of that value, and nothing
/// where there is none.
pub open spec fn escape_bytes(e: Escape) -> Seq<u8> {
    match e {
        Escape::One(c) => encode_utf8(seq![c]),
        Escape::Kept(c) => encode_utf8(seq!['\\']) + encode_utf8(seq![c]),
        Escape::Code(v) => if v < 256 {
            seq![v as u8]
        } else {
            Seq::empty()
        },
    }
}

fn append_escape(out: &mut Vec<u8>, e: Escape)
    ensures
        final(out)@ == old(out)@ + escape_bytes(e),
{
    let ghost start = out@;
    match e {
        Escape::One(c) => append_char(out, c),
        Escape::Kept(c) => {
            append_char(out, '\\');
            append_char(out, c);
        },
        Escape::Code(v) => {
            if v < 256 {
                out.push(v as u8);
            }
        },
    }
    proof {
        assert(out@ =~= start + escape_bytes(e));
    }
}

/// The bytes of a text from `i` on with its escapes replaced by what they stand for.
pub open spec fn unescaped_from(s: Seq<char>, i: int) -> Seq<u8>
    decreases s.len() - i,
{
    if i < 0 || i >= s.len() {
        Seq::empty()
    } else if s[i] == '\\' {
        let (e, next) = escape_at(s, i);
        if i < next <= s.len() {
            escape_bytes(e) + unescaped_from(s, next)
        } else {
            escape_bytes(e)
        }
    } else {
        encode_utf8(seq![s[i]]) + unescaped_from(s, i + 1)
    }
}

/// Replaces the escapes of a text by what they stand for.
pub fn interpret_escape_sequences(s: &str) -> (r: Vec<u8>)
    ensures
        r@ == unescaped_from(s@, 0),
{
    let cs = to_chars(s);
    let mut out: Vec<u8> = Vec::new();
    let mut i: usize = 0;
    let ghost whole = unescaped_from(s@, 0);
    proof {
        assert(out@ + whole =~= whole);
    }
    while i < cs.len()
        invariant
            cs@ == s@,
            i <= cs@.len(),
            out@ + unescaped_from(s@, i as int) == whole,
        decreases cs@.len() - i,
    {
        let ghost before = out@;
        let ghost at = i as int;
        if cs[i] == '\\' {
            let (e, next) = read_escape(&cs, i);
            append_escape(&mut out, e);
            i = next;
            proof {
                let text = escape_bytes(escape_at(s@, at).0);
                let rest = unescaped_from(s@, i as int);
                assert(before + text + rest =~= before + (text + rest));
            }
        } else {
            append_char(&mut out, cs[i]);
            proof {
                assert(out@ + unescaped_from(s@, i + 1) =~= before + unescaped_from(s@, i as int));
            }
            i += 1;
        }
    }
    proof {
        assert(out@ =~= whole);
    }
    out
}

/// The options that the characters of an argument from `k` on set: whether they are
/// all options, whether no newline is printed, and whether escapes count. What comes
/// before a character that is no option has its effect.
pub open spec fn flags_from(a: Seq<char>, k: int, no_newline: bool, escapes: bool) -> (
    bool,
    bool,
    bool,
)
    decreases a.len() - k,
{
    if k < 0 || k >= a.len() {
        (true, no_newline, escapes)
    } else if a[k] == 'n' {
        flags_from(a, k + 1, true, escapes)
    } else if a[k] == 'e' {
        flags_from(a, k + 1, no_newline, true)
    } else if a[k] == 'E' {
        flags_from(a, k + 1, no_newline, false)
    } else {
        (false, no_newline, escapes)
    }
}

/// Where the text starts in the arguments from `i` on, whether no newline is printed,
/// and whether escapes count.
pub open spec fn options_from(argv: Seq<Seq<char>>, i: int, no_newline: bool, escapes: bool) -> (
    int,
    bool,
    bool,
)
    decreases argv.len() - i,
{
    if i < 0 || i >= argv.len() {
        (i, no_newline, escapes)
    } else if argv[i].len() > 1 && argv[i][0] == '-' {
        let (all, n, e) = flags_from(argv[i], 1, no_newline, escapes);
        if all {
            options_from(argv, i + 1, n, e)
        } else {
            (i, n, e)
        }
    } else {
        (i, no_newline, escapes)
    }
}

/// What echo prints.
pub open spec fn echoed(argv: Seq<Seq<char>>) -> Seq<u8> {
    if argv.len() > 1 && (argv[1] == "--help"@ || argv[1] == "-h"@) {
        encode_utf8(HELP@)
    } else {
        let (start, no_newline, escapes) = options_from(argv, 1, false, false);
        let text = join(argv.skip(start), " "@);
        (if escapes {
            unescaped_from(text, 0)
        } else {
            encode_utf8(text)
        }) + if no_newline {
            Seq::empty()
        } else {
            encode_utf8(seq!['\n'])
        }
    }
}

fn read_flags(a: &Vec<char>, no_newline: bool, escapes: bool) -> (r: (bool, bool, bool))
    ensures
        r == flags_from(a@, 1, no_newline, escapes),
{
    let mut n = no_newline;
    let mut e = escapes;
    let mut k: usize = 1;
    while k < a.len()
        invariant
            1 <= k,
            flags_from(a@, 1, no_newline, escapes) == flags_from(a@, k as int, n, e),
        decreases a@.len() - k,
    {
        if a[k] == 'n' {
            n = true;
        } else if a[k] == 'e' {
            e = true;
        } else if a[k] == 'E' {
            e = false;
        } else {
            return (false, n, e);
        }
        k += 1;
    }
    (true, n, e)
}

/// Runs echo.
pub fn run(argv: &Vec<String>) -> (r: Printed)
    requires
        argv@.len() > 0,
    ensures
        r.says(echoed(strs(argv@)), Seq::empty(), 0),
{
    let ghost words = strs(argv@);
    if argv.len() > 1 {
        proof {
            assert(words[1] == argv@[1]@);
        }
        if str_eq(argv[1].as_str(), "--help") || str_eq(argv[1].as_str(), "-h") {
            let mut out: Vec<u8> = Vec::new();
            append_text(&mut out, HELP);
            proof {
                assert(out@ =~= encode_utf8(HELP@));
            }
            return Printed { out, err: String::new(), code: 0 };
        }
    }
    let mut no_newline = false;
    let mut escapes = false;
    let mut i: usize = 1;
    let ghost whole = options_from(words, 1, false, false);
    let mut open = true;
    while open && i < argv.len()
        invariant
            words == strs(argv@),
            1 <= i <= argv@.len(),
            open ==> options_from(words, i as int, no_newline, escapes) == whole,
            !open ==> (i as int, no_newline, escapes) == whole,
        decreases argv@.len() - i + (if open { 1int } else { 0 }),
    {
        let a = to_chars(argv[i].as_str());
        proof {
            assert(words[i as int] == a@);
        }
        if a.len() > 1 && a[0] == '-' {
            let (all, n, e) = read_flags(&a, no_newline, escapes);
            no_newline = n;
            escapes = e;
            if all {
                i += 1;
            } else {
                open = false;
            }
        } else {
            open = false;
        }
    }
    let text = join_strings(argv, i, " ");
    let mut out: Vec<u8> = Vec::new();
    if escapes {
        out = interpret_escape_sequences(text.as_str());
    } else {
        append_text(&mut out, text.as_str());
        proof {
            assert(out@ =~= encode_utf8(text@));
        }
    }
    let ghost body = out@;
    if !no_newline {
        append_char(&mut out, '\n');
    }
    proof {
        assert(out@ =~= body + if no_newline {
            Seq::empty()
        } else {
            encode_utf8(seq!['\n'])
        });
    }
    Printed { out, err: String::new(), code: 0 }
}

/// `\0` and three octal digits stand for the one byte of that value, whatever it is.
pub proof fn law_octal_is_a_byte(b: u8, s: Seq<char>)
    requires
        s.len() == 5,
        s[0] == '\\' && s[1] == '0',
        is_octal(s[2]) && is_octal(s[3]) && is_octal(s[4]),
        octal_value(s.skip(2)) == b,
    ensures
        unescaped_from(s, 0) == seq![b],
{
    reveal_with_fuel(octal_end, 4);
    assert(s.subrange(2, 5) =~= s.skip(2));
    assert(unescaped_from(s, 5) == Seq::<u8>::empty());
    assert(unescaped_from(s, 0) =~= seq![b]);
}

/// Without a backslash, escapes change nothing.
pub proof fn law_plain_text_is_unescaped(s: Seq<char>, i: int)
    requires
        0 <= i <= s.len(),
        forall|k: int| 0 <= k < s.len() ==> s[k] != '\\',
    ensures
        unescaped_from(s, i) == encode_utf8(s.skip(i)),
    decreases s.len() - i,
{
    if i < s.len() {
        law_plain_text_is_unescaped(s, i + 1);
        assert(s.skip(i) =~= seq![s[i]] + s.skip(i + 1));
        lemma_encode_joined(seq![s[i]], s.skip(i + 1));
    } else {
        assert(s.skip(i) =~= Seq::<char>::empty());
    }
}

proof fn lemma_unescaped_skip(a: Seq<char>, b: Seq<char>, i: int)
    requires
        0 <= i <= b.len(),
    ensures
        unescaped_from(a + b, a.len() + i) == unescaped_from(b, i),
    decreases b.len() - i,
{
    if i < b.len() {
        assert((a + b)[a.len() + i] == b[i]);
        lemma_escape_shift(a, b, i);
        lemma_unescaped_skip(a, b, escape_at(b, i).1);
        lemma_unescaped_skip(a, b, i + 1);
    }
}

/// Each escape gives what it means, other characters give themselves, and what follows is
/// read on its own.
pub proof fn law_escapes_are_taken_in_turn(c: char, rest: Seq<char>)
    ensures
        unescaped_from(Seq::empty(), 0).len() == 0,
        unescaped_from(seq!['\\', 'n'] + rest, 0) == encode_utf8(seq!['\n']) + unescaped_from(rest, 0),
        unescaped_from(seq!['\\', 't'] + rest, 0) == encode_utf8(seq!['\t']) + unescaped_from(rest, 0),
        unescaped_from(seq!['\\', 'r'] + rest, 0) == encode_utf8(seq!['\r']) + unescaped_from(rest, 0),
        unescaped_from(seq!['\\', '\\'] + rest, 0) == encode_utf8(seq!['\\']) + unescaped_from(
            rest,
            0,
        ),
        unescaped_from(seq!['\\'], 0) == encode_utf8(seq!['\\']),
        c != '\\' ==> unescaped_from(seq![c] + rest, 0) == encode_utf8(seq![c]) + unescaped_from(
            rest,
            0,
        ),
        c != 'n' && c != 't' && c != 'r' && c != '\\' && c != '0' ==> unescaped_from(
            seq!['\\', c] + rest,
            0,
        ) == encode_utf8(seq!['\\', c]) + unescaped_from(rest, 0),
{
    law_escapes(c, rest);
    lemma_unescaped_skip(seq!['\\', 'n'], rest, 0);
    lemma_unescaped_skip(seq!['\\', 't'], rest, 0);
    lemma_unescaped_skip(seq!['\\', 'r'], rest, 0);
    lemma_unescaped_skip(seq!['\\', '\\'], rest, 0);
    lemma_unescaped_skip(seq!['\\', c], rest, 0);
    lemma_unescaped_skip(seq![c], rest, 0);
    assert((seq!['\\', 'n'] + rest)[0] == '\\');
    assert((seq!['\\', 't'] + rest)[0] == '\\');
    assert((seq!['\\', 'r'] + rest)[0] == '\\');
    assert((seq!['\\', '\\'] + rest)[0] == '\\');
    assert((seq!['\\', c] + rest)[0] == '\\');
    assert((seq![c] + rest)[0] == c);
    assert(unescaped_from(seq!['\\'], 1).len() == 0);
    assert(unescaped_from(seq!['\\'], 0) =~= encode_utf8(seq!['\\']));
    lemma_encode_joined(seq!['\\'], seq![c]);
    assert(seq!['\\'] + seq![c] =~= seq!['\\', c]);
}

/// echo prints its arguments with a blank between neighbours and a newline behind them; `-n`
/// leaves the newline out, `-e` reads escapes and `-E` does not.
pub proof fn law_echo_prints_its_arguments(name: Seq<char>, args: Seq<Seq<char>>)
    requires
        args.len() > 0 ==> args[0].len() <= 1 || args[0][0] != '-',
    ensures
        echoed(seq![name] + args) == encode_utf8(join(args, seq![' '])) + encode_utf8(seq!['\n']),
        echoed(seq![name, seq!['-', 'n']] + args) == encode_utf8(join(args, seq![' '])),
        echoed(seq![name, seq!['-', 'e']] + args) == unescaped_from(join(args, seq![' ']), 0)
            + encode_utf8(seq!['\n']),
        echoed(seq![name, seq!['-', 'E']] + args) == encode_utf8(join(args, seq![' ']))
            + encode_utf8(seq!['\n']),
        echoed(seq![name, seq!['-', 'n', 'e']] + args) == unescaped_from(
            join(args, seq![' ']),
            0,
        ),
{
    reveal_strlit(" ");
    assert(" "@ =~= seq![' ']);
    reveal_strlit("--help");
    reveal_strlit("-h");
    assert("--help"@.len() == 6 && "--help"@[0] == '-');
    assert("-h"@.len() == 2 && "-h"@[0] == '-' && "-h"@[1] == 'h');
    let plain = seq![name] + args;
    assert(plain.skip(1) =~= args);
    if args.len() > 0 {
        assert(plain[1] == args[0]);
    }
    assert(options_from(plain, 1, false, false) == (1int, false, false));
    lemma_after_flags(name, seq!['-', 'n'], args, true, false);
    lemma_after_flags(name, seq!['-', 'e'], args, false, true);
    lemma_after_flags(name, seq!['-', 'E'], args, false, false);
    lemma_after_flags(name, seq!['-', 'n', 'e'], args, true, true);
    assert(echoed(seq![name, seq!['-', 'n']] + args) =~= encode_utf8(join(args, seq![' '])));
    assert(echoed(seq![name, seq!['-', 'n', 'e']] + args) =~= unescaped_from(
        join(args, seq![' ']),
        0,
    ));
}

proof fn lemma_after_flags(
    name: Seq<char>,
    flags: Seq<char>,
    args: Seq<Seq<char>>,
    no_newline: bool,
    escapes: bool,
)
    requires
        args.len() > 0 ==> args[0].len() <= 1 || args[0][0] != '-',
        2 <= flags.len() <= 3,
        flags[0] == '-',
        flags_from(flags, 1, false, false) == (true, no_newline, escapes) || (flags == seq!['-', 'n']
            && no_newline && !escapes) || (flags == seq!['-', 'e'] && !no_newline && escapes) || (flags
            == seq!['-', 'E'] && !no_newline && !escapes) || (flags == seq!['-', 'n', 'e']
            && no_newline && escapes),
    ensures
        options_from(seq![name, flags] + args, 1, false, false) == (2int, no_newline, escapes),
        (seq![name, flags] + args).skip(2) == args,
        (seq![name, flags] + args)[1] == flags,
{
    let all = seq![name, flags] + args;
    reveal_with_fuel(flags_from, 4);
    assert(all.skip(2) =~= args);
    assert(all[1] == flags);
    assert(flags_from(flags, 1, false, false) == (true, no_newline, escapes));
    if args.len() > 0 {
        assert(all[2] == args[0]);
    }
    reveal_with_fuel(options_from, 2);
}

} // verus!
