//! cat - concatenate and print files
use vstd::prelude::*;
use vstd::string::StringExecFns;
use vstd::utf8::encode_utf8;
use crate::args::{arg_tokens, has_long, has_short, lex_args, values, values_from, Tok};
use crate::commands::{refusal, refusal_line, Said, Start};
use crate::error::IoError;
use crate::lines::{fed, filtered, lemma_fewer_lines, partial, LineBuffer};
use crate::list::{strings_of, Strings};
use crate::num::{decimal, write_decimal};
use crate::text::{pad_left, padded_left, part, rows, strs, to_chars, trim, trim_chars};
use crate::unicode::{lossy, read_lossy};

verus! {

pub const HELP: &'static str = "cat - concatenate and print files\n\nUsage: cat [OPTIONS] [FILE...]\n\nOptions:\n  -h, --help    Show this help message\n  -n            Number all output lines\n  -b            Number non-blank lines only\n\nIf no files given, read from stdin. Use '-' for stdin explicitly.\n";

/// A line behind its number.
pub open spec fn numbered(n: nat, text: Seq<char>) -> Seq<char> {
    pad_left(decimal(n), 6) + seq!['\t'] + text + seq!['\n']
}

/// What a line does to the line number, and what is printed for it.
pub open spec fn line_step(skip: bool, n: nat, text: Seq<char>) -> (nat, Seq<char>) {
    if skip {
        (n, text + seq!['\n'])
    } else {
        (n + 1, numbered(n, text))
    }
}

/// The step of `cat -n`, and of `cat -b` with `nonblank`: a line of blanks is not
/// numbered.
pub open spec fn step(nonblank: bool) -> spec_fn(nat, Seq<u8>) -> (nat, Seq<char>) {
    |n: nat, line: Seq<u8>| line_step(
        nonblank && trim(lossy(line)).len() == 0,
        n,
        lossy(line),
    )
}

/// A running cat.
pub struct Cat {
    /// Whether all lines are numbered.
    pub number: bool,
    /// Whether lines that are not blank are numbered.
    pub nonblank: bool,
    /// The files to print; stdin where there are none.
    pub files: Strings,
    /// The number of the next line.
    pub next: u64,
    /// What waits for its newline.
    pub lines: LineBuffer,
}

pub open spec fn wants_help(ts: Seq<Tok>) -> bool {
    ts.contains(Tok::Short('h')) || ts.contains(Tok::Long("help"@))
}

/// Starts cat.
pub fn run(argv: &Vec<String>) -> (r: Start<Cat>)
    ensures
        ({
            let ts = arg_tokens(strs(argv@), Seq::empty(), false);
            match r {
                Start::Done(said) => wants_help(ts) && said.says(HELP@, Seq::empty(), 0),
                Start::Go(c) => !wants_help(ts) && c.number == ts.contains(Tok::Short('n'))
                    && c.nonblank == ts.contains(Tok::Short('b')) && strings_of(c.files)
                    == values_from(ts, 0) && c.next == 1 && c.lines@.len() == 0,
            }
        }),
{
    let none: Vec<char> = Vec::new();
    proof {
        assert(none@ =~= Seq::<char>::empty());
    }
    let ts = lex_args(argv, &none, false);
    if has_short(&ts, 'h') || has_long(&ts, "help") {
        return Start::Done(Said::output(HELP));
    }
    Start::Go(
        Cat {
            number: has_short(&ts, 'n'),
            nonblank: has_short(&ts, 'b'),
            files: values(&ts),
            next: 1,
            lines: LineBuffer::new(),
        },
    )
}

/// The bytes of a text.
pub fn bytes_of(s: &str) -> (r: Vec<u8>)
    ensures
        r@ == encode_utf8(s@),
{
    let b = s.as_bytes();
    part(b, 0, b.len())
}

impl Cat {
    pub open spec fn numbers(self) -> bool {
        self.number || self.nonblank
    }

    fn line(&mut self, skip: bool, text: &str, out: &mut String)
        requires
            old(self).next < u64::MAX,
        ensures
            final(self).number == old(self).number,
            final(self).nonblank == old(self).nonblank,
            final(self).files == old(self).files,
            final(self).lines == old(self).lines,
            ({
                let (n, s) = line_step(skip, old(self).next as nat, text@);
                final(self).next == n && final(out)@ == old(out)@ + s
            }),
    {
        let ghost start = out@;
        if skip {
            out.append(text);
            out.push('\n');
            proof {
                assert(out@ =~= start + (text@ + seq!['\n']));
            }
        } else {
            let ds = write_decimal(self.next);
            let lead = padded_left(&ds, 6);
            out.append(lead.as_str());
            out.push('\t');
            out.append(text);
            out.push('\n');
            proof {
                assert(out@ =~= start + numbered(self.next as nat, text@));
            }
            self.next = self.next + 1;
        }
    }

    /// Takes a chunk of input and gives what is printed.
    pub fn feed(&mut self, chunk: &[u8]) -> (r: Vec<u8>)
        requires
            old(self).next + old(self).lines@.len() + chunk@.len() < u64::MAX,
        ensures
            final(self).number == old(self).number,
            final(self).nonblank == old(self).nonblank,
            final(self).files == old(self).files,
            final(self).next + final(self).lines@.len() <= old(self).next + old(self).lines@.len()
                + chunk@.len(),
            if !old(self).numbers() {
                r@ == chunk@ && *final(self) == *old(self)
            } else {
                let (pending, n, text) = fed(
                    old(self).lines@,
                    old(self).next as nat,
                    step(old(self).nonblank),
                    chunk@,
                );
                final(self).lines@ == pending && final(self).next == n && r@ == encode_utf8(text)
            },
    {
        if !(self.number || self.nonblank) {
            return part(chunk, 0, chunk.len());
        }
        let ghost f = step(self.nonblank);
        let ghost n0 = self.next as nat;
        proof {
            lemma_fewer_lines(self.lines@ + chunk@);
        }
        let lines = self.lines.feed(chunk);
        let ghost all = rows(lines@);
        let ghost whole = filtered(n0, f, all, 0);
        let mut out = String::new();
        let mut i: usize = 0;
        proof {
            assert(out@ + whole.1 =~= whole.1);
        }
        while i < lines.len()
            invariant
                f == step(self.nonblank),
                self.number == old(self).number,
                self.nonblank == old(self).nonblank,
                self.files == old(self).files,
                self.lines@ == partial(old(self).lines@ + chunk@),
                all == rows(lines@),
                i <= lines@.len(),
                n0 + lines@.len() < u64::MAX,
                self.next <= n0 + i,
                filtered(self.next as nat, f, all, i as int).0 == whole.0,
                out@ + filtered(self.next as nat, f, all, i as int).1 == whole.1,
            decreases lines@.len() - i,
        {
            let ghost before = self.next as nat;
            let ghost now = out@;
            let text = read_lossy(&lines[i]);
            let cs = to_chars(text.as_str());
            let rest = trim_chars(&cs);
            let skip = self.nonblank && rest.len() == 0;
            self.line(skip, text.as_str(), &mut out);
            proof {
                assert(all[i as int] == lines@[i as int]@);
                let (mid, s) = f(before, all[i as int]);
                let rest = filtered(mid, f, all, i + 1).1;
                assert(now + s + rest =~= now + (s + rest));
            }
            i += 1;
        }
        proof {
            assert(out@ + Seq::<char>::empty() =~= out@);
        }
        bytes_of(out.as_str())
    }

    /// Takes the end of an input and gives what is printed: a line without a
    /// newline at its end gets one.
    pub fn end(&mut self) -> (r: Vec<u8>)
        requires
            old(self).next < u64::MAX,
        ensures
            final(self).number == old(self).number,
            final(self).nonblank == old(self).nonblank,
            final(self).files == old(self).files,
            final(self).lines@.len() == 0,
            if old(self).lines@.len() == 0 {
                r@ == Seq::<u8>::empty() && final(self).next == old(self).next
            } else {
                let text = lossy(old(self).lines@);
                let (n, s) = line_step(
                    old(self).nonblank && trim(text).len() == 0,
                    old(self).next as nat,
                    text,
                );
                final(self).next == n && r@ == encode_utf8(s)
            },
    {
        if self.lines.is_empty() {
            let none: Vec<u8> = Vec::new();
            return none;
        }
        let last = self.lines.take();
        let text = read_lossy(&last);
        let cs = to_chars(text.as_str());
        let rest = trim_chars(&cs);
        let skip = self.nonblank && rest.len() == 0;
        let mut out = String::new();
        self.line(skip, text.as_str(), &mut out);
        let ghost s = line_step(skip, old(self).next as nat, text@).1;
        proof {
            assert(out@ =~= s);
        }
        bytes_of(out.as_str())
    }

    /// The complaint about a file that cannot be opened. The exit code is then 1.
    pub fn refused(&self, path: &str, e: &IoError) -> (r: Said)
        ensures
            r.says(Seq::empty(), refusal("cat"@, path@, e.spec_message()), 1),
    {
        Said { out: String::new(), err: refusal_line("cat", path, e), code: 1 }
    }
}

/// A line is numbered to six places before a tab, and the next one gets the next number. Blank
/// lines are printed without a number where only the others are numbered.
pub proof fn law_lines_are_numbered(n: nat, line: Seq<u8>)
    ensures
        step(false)(n, line) == (
            n + 1,
            pad_left(decimal(n), 6) + seq!['\t'] + lossy(line) + seq!['\n'],
        ),
        trim(lossy(line)).len() > 0 ==> step(true)(n, line) == step(false)(n, line),
        trim(lossy(line)).len() == 0 ==> step(true)(n, line) == (n, lossy(line) + seq!['\n']),
{
}

/// The lines of an input bear one number after the other.
pub proof fn law_numbers_follow_each_other(n: nat, lines: Seq<Seq<u8>>, i: int)
    requires
        0 <= i <= lines.len(),
    ensures
        filtered(n, step(false), lines, i).0 == n + lines.len() - i,
    decreases lines.len() - i,
{
    if i < lines.len() {
        law_numbers_follow_each_other(n + 1, lines, i + 1);
    }
}

/// Help is asked for by `-h` or by `--help`, and by nothing else.
pub proof fn law_help_is_asked_for(t: Tok)
    ensures
        wants_help(seq![t]) == (t == Tok::Short('h') || t == Tok::Long("help"@)),
        !wants_help(Seq::empty()),
{
    let ts = seq![t];
    assert(ts[0] == t);
    assert(ts.contains(t));
}

} // verus!
