//! head - output the first part of files
use vstd::prelude::*;
use vstd::string::StringExecFns;
use crate::args::{
    arg_tokens, has_short, last_count, last_number, lex_args, toks, values, values_from, Tok,
};
use crate::commands::{refusal, refusal_line, Said};
use crate::error::IoError;
use crate::lines::{fed, filtered, partial, LineBuffer};
use crate::list::{strings_of, Strings};
use crate::text::{append_all, part, rows, strs};

verus! {

/// How much of each input is printed.
#[derive(Debug, Clone, Copy, PartialEq, Eq, Structural)]
pub enum Amount {
    /// So many lines.
    Lines(usize),
    /// So many bytes.
    Bytes(usize),
}

/// The amount that the options give: bytes before lines, ten lines where nothing is
/// given.
pub open spec fn amount_of(lines: Option<nat>, bytes: Option<nat>) -> Amount {
    match (lines, bytes) {
        (_, Some(n)) => Amount::Bytes(n as usize),
        (Some(n), None) => Amount::Lines(n as usize),
        (None, None) => Amount::Lines(10),
    }
}

/// What is printed before input `i` where headers are printed.
pub open spec fn header(path: Seq<char>, first: bool) -> Seq<char> {
    (if first {
        Seq::empty()
    } else {
        seq!['\n']
    }) + "==> "@ + path + " <==\n"@
}

/// The header of an input.
pub fn header_line(path: &str, first: bool) -> (r: String)
    ensures
        r@ == header(path@, first),
{
    let mut r = String::new();
    if !first {
        r.push('\n');
    }
    proof {
        assert(r@ =~= if first {
            Seq::<char>::empty()
        } else {
            seq!['\n']
        });
    }
    r.append("==> ");
    r.append(path);
    r.append(" <==\n");
    r
}

/// The step of `head -n`: how many lines have been printed, and whether a line was
/// left out.
pub open spec fn step(n: nat) -> spec_fn((nat, bool), Seq<u8>) -> ((nat, bool), Seq<u8>) {
    |st: (nat, bool), line: Seq<u8>|
        if st.1 || st.0 >= n {
            ((st.0, true), Seq::empty())
        } else {
            ((st.0 + 1, false), line.push(10u8))
        }
}

/// A running head.
pub struct Head {
    pub amount: Amount,
    /// Whether a header is printed before each input.
    pub headers: bool,
    /// The files to read; stdin where there are none.
    pub files: Strings,
    /// How many lines or bytes of the current input have been printed.
    pub printed: usize,
    /// Whether something was left out.
    pub cut_off: bool,
    /// What waits for its newline.
    pub lines: LineBuffer,
}

/// What head finds in its arguments.
pub open spec fn head_tokens(argv: Seq<Seq<char>>) -> Seq<Tok> {
    arg_tokens(argv, seq!['n', 'c'], true)
}

/// Starts head.
pub fn run(argv: &Vec<String>) -> (r: Head)
    ensures
        ({
            let ts = head_tokens(strs(argv@));
            let n = ts.len() as int;
            &&& r.amount == amount_of(
                last_number(ts, 'n', true, n),
                last_number(ts, 'c', false, n),
            )
            &&& strings_of(r.files) == values_from(ts, 0)
            &&& r.headers == (!ts.contains(Tok::Short('q')) && strings_of(r.files).len() > 1)
            &&& r.printed == 0
            &&& !r.cut_off
            &&& r.lines@.len() == 0
        }),
{
    let mut valued: Vec<char> = Vec::new();
    valued.push('n');
    valued.push('c');
    proof {
        assert(valued@ =~= seq!['n', 'c']);
    }
    let ts = lex_args(argv, &valued, true);
    proof {
        assert(toks(ts@).len() == ts@.len());
    }
    let lines = last_count(&ts, 'n', true);
    let bytes = last_count(&ts, 'c', false);
    let amount = match (lines, bytes) {
        (_, Some(n)) => Amount::Bytes(n),
        (Some(n), None) => Amount::Lines(n),
        (None, None) => Amount::Lines(10),
    };
    let files = values(&ts);
    let headers = !has_short(&ts, 'q') && files.len() > 1;
    Head { amount, headers, files, printed: 0, cut_off: false, lines: LineBuffer::new() }
}

impl Head {
    /// How many bytes are read next, at most 4096; nothing where the rest of the
    /// input does not matter.
    pub open spec fn spec_wanted(self) -> int {
        match self.amount {
            Amount::Bytes(n) => if self.printed >= n {
                0
            } else if n - self.printed < 4096 {
                n - self.printed
            } else {
                4096
            },
            Amount::Lines(_) => if self.cut_off {
                0
            } else {
                4096
            },
        }
    }

    /// How many bytes are read next.
    pub fn wanted(&self) -> (r: usize)
        ensures
            r == self.spec_wanted(),
    {
        match self.amount {
            Amount::Bytes(n) => {
                if self.printed >= n {
                    0
                } else if n - self.printed < 4096 {
                    n - self.printed
                } else {
                    4096
                }
            },
            Amount::Lines(_) => {
                if self.cut_off {
                    0
                } else {
                    4096
                }
            },
        }
    }

    /// Starts input `i` and gives its header.
    pub fn begin(&mut self, i: usize) -> (r: String)
        requires
            i < strings_of(old(self).files).len() || i == 0,
        ensures
            final(self).amount == old(self).amount,
            final(self).headers == old(self).headers,
            final(self).files == old(self).files,
            final(self).printed == 0,
            !final(self).cut_off,
            final(self).lines@.len() == 0,
            r@ == if old(self).headers && i < strings_of(old(self).files).len() {
                header(strings_of(old(self).files)[i as int], i == 0)
            } else {
                Seq::empty()
            },
    {
        self.printed = 0;
        self.cut_off = false;
        self.lines = LineBuffer::new();
        if self.headers && i < self.files.len() {
            header_line(self.files.at(i), i == 0)
        } else {
            String::new()
        }
    }

    /// Takes a chunk of the current input and gives what is printed. No more bytes
    /// are taken than were wanted when bytes are counted.
    pub fn feed(&mut self, chunk: &[u8]) -> (r: Vec<u8>)
        requires
            old(self).amount is Bytes ==> chunk@.len() <= old(self).spec_wanted(),
        ensures
            final(self).amount == old(self).amount,
            final(self).headers == old(self).headers,
            final(self).files == old(self).files,
            match old(self).amount {
                Amount::Bytes(_) => r@ == chunk@ && final(self).printed == old(self).printed
                    + chunk@.len() && final(self).lines@ == old(self).lines@,
                Amount::Lines(n) => (
                    final(self).lines@,
                    (final(self).printed as nat, final(self).cut_off),
                    r@,
                ) == fed(
                    old(self).lines@,
                    (old(self).printed as nat, old(self).cut_off),
                    step(n as nat),
                    chunk@,
                ),
            },
    {
        let n = match self.amount {
            Amount::Bytes(_) => {
                self.printed = self.printed + chunk.len();
                return part(chunk, 0, chunk.len());
            },
            Amount::Lines(n) => n,
        };
        let ghost f = step(n as nat);
        let ghost start = *self;
        let ghost st0 = (self.printed as nat, self.cut_off);
        let lines = self.lines.feed(chunk);
        let ghost all = rows(lines@);
        let ghost whole = filtered(st0, f, all, 0);
        let mut out: Vec<u8> = Vec::new();
        let mut i: usize = 0;
        proof {
            assert(out@ + whole.1 =~= whole.1);
        }
        while i < lines.len()
            invariant
                f == step(n as nat),
                self.amount == start.amount,
                self.headers == start.headers,
                self.files == start.files,
                self.lines@ == partial(start.lines@ + chunk@),
                all == rows(lines@),
                i <= lines@.len(),
                filtered((self.printed as nat, self.cut_off), f, all, i as int).0 == whole.0,
                out@ + filtered((self.printed as nat, self.cut_off), f, all, i as int).1 == whole.1,
            decreases lines@.len() - i,
        {
            let ghost now = out@;
            let ghost before = (self.printed as nat, self.cut_off);
            if self.cut_off || self.printed >= n {
                self.cut_off = true;
            } else {
                append_all(&mut out, &lines[i]);
                out.push(10u8);
                self.printed = self.printed + 1;
            }
            proof {
                assert(all[i as int] == lines@[i as int]@);
                let (mid, s) = f(before, all[i as int]);
                assert(out@ =~= now + s);
                let rest = filtered(mid, f, all, i + 1).1;
                assert(now + s + rest =~= now + (s + rest));
            }
            i += 1;
        }
        proof {
            assert(out@ + Seq::<u8>::empty() =~= out@);
        }
        out
    }

    /// Takes the end of the current input and gives what is printed: a last line
    /// without a newline gets one, if it is still to be printed.
    pub fn end(&mut self) -> (r: Vec<u8>)
        ensures
            final(self).amount == old(self).amount,
            final(self).headers == old(self).headers,
            final(self).files == old(self).files,
            r@ == match old(self).amount {
                Amount::Lines(n) => if old(self).lines@.len() > 0 && old(self).printed < n
                    && !old(self).cut_off {
                    old(self).lines@.push(10u8)
                } else {
                    Seq::empty()
                },
                Amount::Bytes(_) => Seq::empty(),
            },
    {
        let mut out: Vec<u8> = Vec::new();
        match self.amount {
            Amount::Lines(n) => {
                if !self.lines.is_empty() && self.printed < n && !self.cut_off {
                    out = self.lines.take();
                    out.push(10u8);
                }
            },
            Amount::Bytes(_) => {},
        }
        out
    }

    /// The complaint about a file that cannot be opened. The exit code is then 1.
    pub fn refused(&self, path: &str, e: &IoError) -> (r: Said)
        ensures
            r.says(Seq::empty(), refusal("head"@, path@, e.spec_message()), 1),
    {
        Said { out: String::new(), err: refusal_line("head", path, e), code: 1 }
    }
}

/// Lines as they are printed, from `i` on.
pub open spec fn printed_from(lines: Seq<Seq<u8>>, i: int) -> Seq<u8>
    decreases lines.len() - i,
{
    if i < 0 || i >= lines.len() {
        Seq::empty()
    } else {
        lines[i].push(10u8) + printed_from(lines, i + 1)
    }
}

/// `head -n` prints the first `n` of the lines that it reads, and nothing else.
pub proof fn law_head_prints_the_first(lines: Seq<Seq<u8>>, n: nat)
    ensures
        filtered((0nat, false), step(n), lines, 0).1 == printed_from(
            lines.take(if n <= lines.len() {
                n as int
            } else {
                lines.len() as int
            }),
            0,
        ),
{
    lemma_head_from(lines, n, 0);
}

proof fn lemma_head_from(lines: Seq<Seq<u8>>, n: nat, i: int)
    requires
        0 <= i <= lines.len(),
        i <= n,
    ensures
        filtered((i as nat, false), step(n), lines, i).1 == printed_from(
            lines.take(if n <= lines.len() {
                n as int
            } else {
                lines.len() as int
            }),
            i,
        ),
    decreases lines.len() - i,
{
    let m = if n <= lines.len() {
        n as int
    } else {
        lines.len() as int
    };
    if i < lines.len() {
        if i < n {
            lemma_head_from(lines, n, i + 1);
            assert(lines.take(m)[i] == lines[i]);
        } else {
            lemma_head_off(lines, n, (i as nat, true), i + 1);
            assert(Seq::<u8>::empty() + Seq::<u8>::empty() =~= Seq::<u8>::empty());
        }
    }
}

proof fn lemma_head_off(lines: Seq<Seq<u8>>, n: nat, st: (nat, bool), i: int)
    requires
        st.1,
        0 <= i,
    ensures
        filtered(st, step(n), lines, i).1 == Seq::<u8>::empty(),
    decreases lines.len() - i,
{
    if i < lines.len() {
        lemma_head_off(lines, n, st, i + 1);
        assert(Seq::<u8>::empty() + Seq::<u8>::empty() =~= Seq::<u8>::empty());
    }
}

/// Bytes are printed where they are asked for, lines otherwise, and ten lines where nothing
/// is asked for.
pub proof fn law_amounts(lines: Option<nat>, n: usize)
    ensures
        amount_of(None, None) == Amount::Lines(10),
        amount_of(Some(n as nat), None) == Amount::Lines(n),
        amount_of(lines, Some(n as nat)) == Amount::Bytes(n),
{
}

/// The name of an input stands between arrows on a line of its own, behind an empty line
/// where it is not the first.
pub proof fn law_headers(path: Seq<char>)
    ensures
        header(path, true) == "==> "@ + path + " <==\n"@,
        header(path, false) == seq!['\n'] + header(path, true),
{
    assert(header(path, true) =~= "==> "@ + path + " <==\n"@);
    assert(header(path, false) =~= seq!['\n'] + header(path, true));
}

/// `-n` and `-c` take a value, a dash can stand before a number, and no other option does; the first argument is the
/// name of the command.
pub proof fn law_options_with_values(name: Seq<char>, args: Seq<Seq<char>>)
    ensures
        head_tokens(seq![name] + args) == crate::args::tokens(args, seq!['n', 'c'], true),
        head_tokens(Seq::empty()).len() == 0,
{
    assert((seq![name] + args).skip(1) =~= args);
}

} // verus!
