//! uniq - report or omit repeated lines
use vstd::prelude::*;
use vstd::string::StringExecFns;
use crate::args::{arg_tokens, has_short, lex_args, values, values_from, Tok};
use crate::commands::{refusal, refusal_line, Said};
use crate::error::IoError;
use crate::lines::{fed, filtered, lemma_fewer_lines, partial, LineBuffer};
use crate::list::{strings_of, Strings};
use crate::num::{decimal, write_decimal};
use crate::text::{pad_left, padded_left, rows, str_eq, strs};
use crate::unicode::{lossy, lower, lowercase, read_lossy};

verus! {

/// What uniq was asked for.
#[derive(Debug, Clone, Copy, PartialEq, Eq, Structural)]
pub struct UniqOptions {
    /// Whether each line is printed behind the number of its repeats.
    pub count: bool,
    /// Whether only repeated lines are printed.
    pub only_duplicates: bool,
    /// Whether only lines that do not repeat are printed.
    pub only_unique: bool,
    /// Whether case does not matter.
    pub ignore_case: bool,
}

impl UniqOptions {
    /// What is printed for a line that came `count` times in a row.
    pub open spec fn emitted(self, line: Seq<char>, count: nat) -> Seq<char> {
        if (self.only_duplicates && count <= 1) || (self.only_unique && count != 1) {
            Seq::empty()
        } else if self.count {
            pad_left(decimal(count), 7) + seq![' '] + line + seq!['\n']
        } else {
            line + seq!['\n']
        }
    }

    /// What lines are compared by.
    pub open spec fn key(self, line: Seq<char>) -> Seq<char> {
        if self.ignore_case {
            lower(line)
        } else {
            line
        }
    }

    /// What a line does: the line that repeats now and how often it came, and what
    /// is printed.
    pub open spec fn line_step(self, st: (Option<Seq<char>>, nat), line: Seq<char>) -> (
        (Option<Seq<char>>, nat),
        Seq<char>,
    ) {
        match st.0 {
            Some(prev) => if self.key(prev) == self.key(line) {
                ((st.0, st.1 + 1), Seq::empty())
            } else {
                ((Some(line), 1), self.emitted(prev, st.1))
            },
            None => ((Some(line), 1), Seq::empty()),
        }
    }

    pub open spec fn step(self) -> spec_fn((Option<Seq<char>>, nat), Seq<u8>) -> (
        (Option<Seq<char>>, nat),
        Seq<char>,
    ) {
        |st: (Option<Seq<char>>, nat), line: Seq<u8>| self.line_step(st, lossy(line))
    }
}

/// Prints a line that came `count` times in a row.
pub fn emit_line(line: &str, count: usize, opts: &UniqOptions, output: &mut String)
    ensures
        final(output)@ == old(output)@ + opts.emitted(line@, count as nat),
{
    let ghost start = output@;
    if (opts.only_duplicates && !(count > 1)) || (opts.only_unique && count != 1) {
        proof {
            assert(start + Seq::<char>::empty() =~= start);
        }
        return ;
    }
    if opts.count {
        let ds = write_decimal(count as u64);
        let lead = padded_left(&ds, 7);
        output.append(lead.as_str());
        output.push(' ');
    }
    output.append(line);
    output.push('\n');
    proof {
        assert(output@ =~= start + opts.emitted(line@, count as nat));
    }
}

pub open spec fn text_of(line: Option<String>) -> Option<Seq<char>> {
    match line {
        Some(s) => Some(s@),
        None => None,
    }
}

/// Takes a line: it repeats the one before, or the one before is printed.
pub fn process_uniq_line(
    line: &str,
    opts: &UniqOptions,
    prev_line: &mut Option<String>,
    prev_count: &mut usize,
    output: &mut String,
)
    requires
        *old(prev_count) < usize::MAX,
    ensures
        ({
            let (st, text) = opts.line_step(
                (text_of(*old(prev_line)), *old(prev_count) as nat),
                line@,
            );
            &&& (text_of(*final(prev_line)), *final(prev_count) as nat) == st
            &&& final(output)@ == old(output)@ + text
        }),
{
    let same = match prev_line {
        Some(p) => {
            if opts.ignore_case {
                let a = lowercase(p.as_str());
                let b = lowercase(line);
                str_eq(a.as_str(), b.as_str())
            } else {
                str_eq(p.as_str(), line)
            }
        },
        None => false,
    };
    if same {
        *prev_count = *prev_count + 1;
        proof {
            assert(output@ + Seq::<char>::empty() =~= output@);
        }
    } else {
        match prev_line {
            Some(p) => {
                emit_line(p.as_str(), *prev_count, opts, output);
            },
            None => {
                proof {
                    assert(output@ + Seq::<char>::empty() =~= output@);
                }
            },
        }
        *prev_line = Some(line.to_owned());
        *prev_count = 1;
    }
}

/// A running uniq.
pub struct Uniq {
    pub opts: UniqOptions,
    /// The input, and the output behind it; stdin and stdout where they are not
    /// given.
    pub files: Strings,
    /// The line that repeats now.
    pub prev: Option<String>,
    /// How often it came.
    pub repeats: usize,
    /// What waits for its newline.
    pub lines: LineBuffer,
}

/// What uniq finds in its arguments.
pub open spec fn uniq_tokens(argv: Seq<Seq<char>>) -> Seq<Tok> {
    arg_tokens(argv, Seq::empty(), false)
}

/// Starts uniq.
pub fn run(argv: &Vec<String>) -> (r: Uniq)
    ensures
        ({
            let ts = uniq_tokens(strs(argv@));
            &&& r.opts.count == ts.contains(Tok::Short('c'))
            &&& r.opts.only_duplicates == ts.contains(Tok::Short('d'))
            &&& r.opts.only_unique == ts.contains(Tok::Short('u'))
            &&& r.opts.ignore_case == ts.contains(Tok::Short('i'))
            &&& strings_of(r.files) == values_from(ts, 0)
            &&& r.prev is None
            &&& r.repeats == 0
            &&& r.lines@.len() == 0
        }),
{
    let none: Vec<char> = Vec::new();
    proof {
        assert(none@ =~= Seq::<char>::empty());
    }
    let ts = lex_args(argv, &none, false);
    Uniq {
        opts: UniqOptions {
            count: has_short(&ts, 'c'),
            only_duplicates: has_short(&ts, 'd'),
            only_unique: has_short(&ts, 'u'),
            ignore_case: has_short(&ts, 'i'),
        },
        files: values(&ts),
        prev: None,
        repeats: 0,
        lines: LineBuffer::new(),
    }
}

impl Uniq {
    pub open spec fn state(self) -> (Option<Seq<char>>, nat) {
        (text_of(self.prev), self.repeats as nat)
    }

    /// The path to read; `-` where none is given.
    pub fn input(&self) -> (r: &str)
        ensures
            r@ == if strings_of(self.files).len() > 0 {
                strings_of(self.files)[0]
            } else {
                "-"@
            },
    {
        if self.files.len() > 0 {
            self.files.at(0)
        } else {
            "-"
        }
    }

    /// The path to write, where one is given.
    pub fn output(&self) -> (r: Option<&str>)
        ensures
            match r {
                Some(p) => strings_of(self.files).len() > 1 && p@ == strings_of(self.files)[1],
                None => strings_of(self.files).len() <= 1,
            },
    {
        if self.files.len() > 1 {
            Some(self.files.at(1))
        } else {
            None
        }
    }

    /// Takes a chunk of input and gives what is printed.
    pub fn feed(&mut self, chunk: &[u8]) -> (r: String)
        requires
            old(self).repeats + old(self).lines@.len() + chunk@.len() < usize::MAX,
        ensures
            final(self).opts == old(self).opts,
            final(self).files == old(self).files,
            final(self).repeats + final(self).lines@.len()
                <= old(self).repeats + old(self).lines@.len() + chunk@.len() + 1,
            (final(self).lines@, final(self).state(), r@) == fed(
                old(self).lines@,
                old(self).state(),
                old(self).opts.step(),
                chunk@,
            ),
    {
        let ghost start = *self;
        let ghost f = self.opts.step();
        proof {
            lemma_fewer_lines(self.lines@ + chunk@);
        }
        let lines = self.lines.feed(chunk);
        let ghost all = rows(lines@);
        let ghost whole = filtered(start.state(), f, all, 0);
        let mut out = String::new();
        let mut i: usize = 0;
        proof {
            assert(out@ + whole.1 =~= whole.1);
        }
        while i < lines.len()
            invariant
                f == start.opts.step(),
                self.opts == start.opts,
                self.files == start.files,
                self.lines@ == partial(start.lines@ + chunk@),
                all == rows(lines@),
                i <= lines@.len(),
                start.repeats + lines@.len() < usize::MAX,
                self.repeats <= start.repeats + i + 1,
                i == 0 ==> self.repeats == start.repeats,
                self.repeats > start.repeats + i ==> self.repeats == 1,
                filtered(self.state(), f, all, i as int).0 == whole.0,
                out@ + filtered(self.state(), f, all, i as int).1 == whole.1,
            decreases lines@.len() - i,
        {
            let ghost before = self.state();
            let ghost now = out@;
            let text = read_lossy(&lines[i]);
            process_uniq_line(
                text.as_str(),
                &self.opts,
                &mut self.prev,
                &mut self.repeats,
                &mut out,
            );
            proof {
                assert(all[i as int] == lines@[i as int]@);
                let (mid, s) = f(before, all[i as int]);
                let rest = filtered(mid, f, all, i + 1).1;
                assert(now + s + rest =~= now + (s + rest));
            }
            i += 1;
        }
        proof {
            assert(out@ + Seq::<char>::empty() =~= out@);
        }
        out
    }

    /// Takes the end of the input and gives what is printed.
    pub fn end(&mut self) -> (r: String)
        requires
            old(self).repeats < usize::MAX,
        ensures
            ({
                let (st, text) = if old(self).lines@.len() == 0 {
                    (old(self).state(), Seq::empty())
                } else {
                    old(self).opts.line_step(old(self).state(), lossy(old(self).lines@))
                };
                &&& r@ == text + match st.0 {
                    Some(prev) => old(self).opts.emitted(prev, st.1),
                    None => Seq::empty(),
                }
                &&& final(self).state() == st
            }),
            final(self).lines@.len() == 0,
            final(self).opts == old(self).opts,
            final(self).files == old(self).files,
    {
        let mut out = String::new();
        if !self.lines.is_empty() {
            let last = self.lines.take();
            let text = read_lossy(&last);
            let ghost before = self.state();
            process_uniq_line(
                text.as_str(),
                &self.opts,
                &mut self.prev,
                &mut self.repeats,
                &mut out,
            );
            proof {
                assert(out@ =~= self.opts.line_step(before, text@).1);
            }
        }
        match &self.prev {
            Some(p) => {
                emit_line(p.as_str(), self.repeats, &self.opts, &mut out);
            },
            None => {
                proof {
                    assert(out@ + Seq::<char>::empty() =~= out@);
                }
            },
        }
        out
    }

    /// The complaint about an input that cannot be opened. The exit code is then 1.
    pub fn refused(&self, path: &str, e: &IoError) -> (r: Said)
        ensures
            r.says(Seq::empty(), refusal("uniq"@, path@, e.spec_message()), 1),
    {
        Said { out: String::new(), err: refusal_line("uniq", path, e), code: 1 }
    }
}

/// Of the lines from `i` on, the first one of all and each that does not repeat the
/// one before it, as they are printed.
pub open spec fn changes_from(opts: UniqOptions, lines: Seq<Seq<char>>, i: int) -> Seq<char>
    decreases lines.len() - i,
{
    if i < 0 || i >= lines.len() {
        Seq::empty()
    } else if i > 0 && opts.key(lines[i - 1]) == opts.key(lines[i]) {
        changes_from(opts, lines, i + 1)
    } else {
        lines[i] + seq!['\n'] + changes_from(opts, lines, i + 1)
    }
}

/// What uniq prints for the lines from `i` on when it is in a state, and for the
/// line that repeats when they end.
pub open spec fn uniq_text(
    opts: UniqOptions,
    st: (Option<Seq<char>>, nat),
    lines: Seq<Seq<char>>,
    i: int,
) -> Seq<char>
    decreases lines.len() - i,
{
    if i < 0 || i >= lines.len() {
        match st.0 {
            Some(prev) => opts.emitted(prev, st.1),
            None => Seq::empty(),
        }
    } else {
        let (mid, text) = opts.line_step(st, lines[i]);
        text + uniq_text(opts, mid, lines, i + 1)
    }
}

/// Plain uniq prints the first of each run of lines that are alike, in order, and
/// nothing else.
pub proof fn law_runs_are_printed_once(opts: UniqOptions, lines: Seq<Seq<char>>)
    requires
        !opts.count,
        !opts.only_duplicates,
        !opts.only_unique,
    ensures
        uniq_text(opts, (None, 0), lines, 0) == changes_from(opts, lines, 0),
{
    if lines.len() > 0 {
        lemma_runs(opts, lines, lines[0], 1, 1);
        assert(Seq::<char>::empty() + uniq_text(opts, (Some(lines[0]), 1), lines, 1) =~= uniq_text(
            opts,
            (Some(lines[0]), 1),
            lines,
            1,
        ));
    }
}

proof fn lemma_runs(
    opts: UniqOptions,
    lines: Seq<Seq<char>>,
    prev: Seq<char>,
    count: nat,
    i: int,
)
    requires
        !opts.count,
        !opts.only_duplicates,
        !opts.only_unique,
        0 < i <= lines.len(),
        opts.key(prev) == opts.key(lines[i - 1]),
    ensures
        uniq_text(opts, (Some(prev), count), lines, i) == prev + seq!['\n'] + changes_from(
            opts,
            lines,
            i,
        ),
    decreases lines.len() - i,
{
    if i < lines.len() {
        if opts.key(prev) == opts.key(lines[i]) {
            lemma_runs(opts, lines, prev, count + 1, i + 1);
            assert(Seq::<char>::empty() + uniq_text(opts, (Some(prev), count + 1), lines, i + 1)
                =~= uniq_text(opts, (Some(prev), count + 1), lines, i + 1));
        } else {
            lemma_runs(opts, lines, lines[i], 1, i + 1);
        }
    } else {
        assert(prev + seq!['\n'] + Seq::<char>::empty() =~= prev + seq!['\n']);
    }
}

/// A run of lines that are alike is printed as one, by its first line and with its length,
/// whatever follows it.
pub proof fn law_a_run_is_one_line(
    opts: UniqOptions,
    run: Seq<Seq<char>>,
    rest: Seq<Seq<char>>,
)
    requires
        run.len() > 0,
        forall|k: int| 0 <= k < run.len() ==> opts.key(#[trigger] run[k]) == opts.key(run[0]),
        rest.len() > 0 ==> opts.key(rest[0]) != opts.key(run[0]),
    ensures
        uniq_text(opts, (None, 0), run + rest, 0) == opts.emitted(run[0], run.len()) + uniq_text(
            opts,
            (None, 0),
            rest,
            0,
        ),
{
    let all = run + rest;
    assert(all[0] == run[0]);
    lemma_run_counts(opts, run, rest, 1);
    assert(Seq::<char>::empty() + uniq_text(opts, (Some(run[0]), 1), all, 1) =~= uniq_text(
        opts,
        (Some(run[0]), 1),
        all,
        1,
    ));
    let n = run.len() as int;
    if rest.len() > 0 {
        assert(all[n] == rest[0]);
        lemma_uniq_skip(opts, (Some(rest[0]), 1), run, rest, 1);
        assert(Seq::<char>::empty() + uniq_text(opts, (Some(rest[0]), 1), rest, 1) =~= uniq_text(
            opts,
            (Some(rest[0]), 1),
            rest,
            1,
        ));
    } else {
        assert(opts.emitted(run[0], run.len()) + Seq::<char>::empty() =~= opts.emitted(
            run[0],
            run.len(),
        ));
    }
}

proof fn lemma_run_counts(
    opts: UniqOptions,
    run: Seq<Seq<char>>,
    rest: Seq<Seq<char>>,
    i: int,
)
    requires
        1 <= i <= run.len(),
        forall|k: int| 0 <= k < run.len() ==> opts.key(#[trigger] run[k]) == opts.key(run[0]),
    ensures
        uniq_text(opts, (Some(run[0]), i as nat), run + rest, i) == uniq_text(
            opts,
            (Some(run[0]), run.len()),
            run + rest,
            run.len() as int,
        ),
    decreases run.len() - i,
{
    if i < run.len() {
        assert((run + rest)[i] == run[i]);
        lemma_run_counts(opts, run, rest, i + 1);
        assert(Seq::<char>::empty() + uniq_text(
            opts,
            (Some(run[0]), (i + 1) as nat),
            run + rest,
            i + 1,
        ) =~= uniq_text(opts, (Some(run[0]), (i + 1) as nat), run + rest, i + 1));
    }
}

proof fn lemma_uniq_skip(
    opts: UniqOptions,
    st: (Option<Seq<char>>, nat),
    a: Seq<Seq<char>>,
    b: Seq<Seq<char>>,
    i: int,
)
    requires
        0 <= i <= b.len(),
    ensures
        uniq_text(opts, st, a + b, a.len() + i) == uniq_text(opts, st, b, i),
    decreases b.len() - i,
{
    if i < b.len() {
        assert((a + b)[a.len() + i] == b[i]);
        lemma_uniq_skip(opts, opts.line_step(st, b[i]).0, a, b, i + 1);
    }
}

/// A line is printed where its run is long enough or short enough, behind the length of its
/// run where that is asked for.
pub proof fn law_what_is_printed_of_a_run(opts: UniqOptions, line: Seq<char>, n: nat)
    requires
        n >= 1,
    ensures
        opts.only_duplicates && n == 1 ==> opts.emitted(line, n).len() == 0,
        opts.only_unique && n > 1 ==> opts.emitted(line, n).len() == 0,
        !opts.count && (n > 1 || !opts.only_duplicates) && (n == 1 || !opts.only_unique)
            ==> opts.emitted(line, n) == line + seq!['\n'],
        opts.count && (n > 1 || !opts.only_duplicates) && (n == 1 || !opts.only_unique)
            ==> opts.emitted(line, n) == pad_left(decimal(n), 7) + seq![' '] + line + seq!['\n'],
        opts.ignore_case ==> opts.key(line) == lower(line),
        !opts.ignore_case ==> opts.key(line) == line,
{
}

/// No option takes a value; the first argument is the name of the command.
pub proof fn law_options_with_values(name: Seq<char>, args: Seq<Seq<char>>)
    ensures
        uniq_tokens(seq![name] + args) == crate::args::tokens(args, Seq::empty(), false),
        uniq_tokens(Seq::empty()).len() == 0,
{
    assert((seq![name] + args).skip(1) =~= args);
}

} // verus!
