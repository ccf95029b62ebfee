//! tail - output the last part of files
use vstd::prelude::*;
use crate::args::{
    arg_tokens, has_short, last_count, last_number, lex_args, toks, values, values_from, ArgToken, Tok,
};
use crate::commands::head::{amount_of, header, header_line, printed_from, Amount};
use crate::commands::{refusal, refusal_line, Said};
use crate::error::IoError;
use crate::lines::{complete, lemma_lines_append, partial, LineBuffer};
use crate::list::{strings_of, Strings};
use crate::num::{
    decimal, law_decimal_is_read, lemma_decimal_reads_back, parse_usize, read_usize,
};
use crate::text::{
    append_all, join_from, law_joined_is_split, part, rows, strs, to_chars,
};

verus! {

/// The last `n` of some things; all of them where there are fewer.
pub open spec fn last_of<T>(s: Seq<T>, n: int) -> Seq<T> {
    if s.len() <= n {
        s
    } else {
        s.skip(s.len() - n)
    }
}

/// The number of lines that a value of `-n` gives. A `+` before it counts for
/// nothing.
pub open spec fn line_count(v: Seq<char>) -> Option<nat> {
    if v.len() > 0 && v[0] == '+' {
        read_usize(v.skip(1))
    } else {
        read_usize(v)
    }
}

pub open spec fn lines_given(t: Tok) -> Option<nat> {
    match t {
        Tok::Valued('n', Some(v)) => line_count(v),
        Tok::Digits(s) => read_usize(s),
        _ => None,
    }
}

/// The number of lines that is given last among the first `n` tokens.
pub open spec fn last_lines(ts: Seq<Tok>, n: int) -> Option<nat>
    decreases n,
{
    if n <= 0 || n > ts.len() {
        None
    } else if lines_given(ts[n - 1]) is Some {
        lines_given(ts[n - 1])
    } else {
        last_lines(ts, n - 1)
    }
}

fn read_lines(ts: &Vec<ArgToken>) -> (r: Option<usize>)
    ensures
        match r {
            Some(n) => last_lines(toks(ts@), ts@.len() as int) == Some(n as nat),
            None => last_lines(toks(ts@), ts@.len() as int) is None,
        },
{
    let ghost all = toks(ts@);
    let mut n: usize = ts.len();
    while n > 0
        invariant
            all == toks(ts@),
            all.len() == ts@.len(),
            n <= ts@.len(),
            last_lines(all, ts@.len() as int) == last_lines(all, n as int),
        decreases n,
    {
        proof {
            assert(all[n - 1] == ts@[n - 1]@);
        }
        let number = match &ts[n - 1] {
            ArgToken::Valued(c, Some(v)) => {
                if *c == 'n' {
                    let cs = to_chars(v.as_str());
                    if cs.len() > 0 && cs[0] == '+' {
                        let rest = part(&cs, 1, cs.len());
                        proof {
                            assert(rest@ =~= cs@.skip(1));
                        }
                        parse_usize(&rest)
                    } else {
                        parse_usize(&cs)
                    }
                } else {
                    None
                }
            },
            ArgToken::Digits(s) => {
                let cs = to_chars(s.as_str());
                parse_usize(&cs)
            },
            _ => None,
        };
        if number.is_some() {
            return number;
        }
        n -= 1;
    }
    None
}

/// A running tail.
pub struct Tail {
    pub amount: Amount,
    /// Whether a header is printed before each input.
    pub headers: bool,
    /// The files to read; stdin where there are none.
    pub files: Strings,
    /// The last lines of the current input, without their newlines.
    pub ring: Vec<Vec<u8>>,
    /// The last bytes of the current input.
    pub bytes: Vec<u8>,
    /// What waits for its newline.
    pub lines: LineBuffer,
}

/// What tail finds in its arguments.
pub open spec fn tail_tokens(argv: Seq<Seq<char>>) -> Seq<Tok> {
    arg_tokens(argv, seq!['n', 'c'], true)
}

/// Starts tail.
pub fn run(argv: &Vec<String>) -> (r: Tail)
    ensures
        ({
            let ts = tail_tokens(strs(argv@));
            let n = ts.len() as int;
            &&& r.amount == amount_of(last_lines(ts, n), last_number(ts, 'c', false, n))
            &&& strings_of(r.files) == values_from(ts, 0)
            &&& r.headers == (!ts.contains(Tok::Short('q')) && strings_of(r.files).len() > 1)
            &&& r.holds(Seq::empty())
        }),
{
    let mut valued: Vec<char> = Vec::new();
    valued.push('n');
    valued.push('c');
    proof {
        assert(valued@ =~= seq!['n', 'c']);
    }
    let ts = lex_args(argv, &valued, true);
    proof {
        assert(toks(ts@).len() == ts@.len());
    }
    let lines = read_lines(&ts);
    let bytes = last_count(&ts, 'c', false);
    let amount = match (lines, bytes) {
        (_, Some(n)) => Amount::Bytes(n),
        (Some(n), None) => Amount::Lines(n),
        (None, None) => Amount::Lines(10),
    };
    let files = values(&ts);
    let headers = !has_short(&ts, 'q') && files.len() > 1;
    let r = Tail {
        amount,
        headers,
        files,
        ring: Vec::new(),
        bytes: Vec::new(),
        lines: LineBuffer::new(),
    };
    proof {
        r.lemma_empty();
    }
    r
}

/// What is kept after one more thing has come.
pub open spec fn kept<T>(ring: Seq<T>, n: int, x: T) -> Seq<T> {
    if n <= 0 {
        ring
    } else if ring.len() >= n {
        ring.skip(1).push(x)
    } else {
        ring.push(x)
    }
}

proof fn lemma_kept<T>(ring: Seq<T>, seen: Seq<T>, n: int, x: T)
    requires
        ring == last_of(seen, n),
        n >= 0,
    ensures
        kept(ring, n, x) == last_of(seen.push(x), n),
{
    assert(kept(ring, n, x) =~= last_of(seen.push(x), n));
}

/// Puts a line behind those that are kept.
fn keep_line(ring: &mut Vec<Vec<u8>>, n: usize, line: Vec<u8>)
    ensures
        rows(final(ring)@) == kept(rows(old(ring)@), n as int, line@),
{
    let ghost before = ring@;
    if n > 0 {
        if ring.len() >= n {
            ring.remove(0);
        }
        ring.push(line);
    }
    proof {
        assert(rows(ring@) =~= kept(rows(before), n as int, line@));
    }
}

impl Tail {
    /// Whether what is kept is what `input`, the current input so far, leaves.
    pub open spec fn holds(self, input: Seq<u8>) -> bool {
        match self.amount {
            Amount::Lines(n) => rows(self.ring@) == last_of(complete(input), n as int)
                && self.lines@ == partial(input),
            Amount::Bytes(n) => self.bytes@ == last_of(input, n as int),
        }
    }

    proof fn lemma_empty(self)
        requires
            self.ring@.len() == 0,
            self.bytes@.len() == 0,
            self.lines@.len() == 0,
        ensures
            self.holds(Seq::empty()),
    {
        let e = Seq::<u8>::empty();
        crate::lines::lemma_fewer_lines(e);
        assert(complete(e) =~= Seq::<Seq<u8>>::empty());
        assert(rows(self.ring@) =~= Seq::<Seq<u8>>::empty());
        assert(partial(e) =~= e);
        assert(self.lines@ =~= e);
        assert(self.bytes@ =~= e);
    }

    /// Starts input `i` and gives its header.
    pub fn begin(&mut self, i: usize) -> (r: String)
        ensures
            final(self).amount == old(self).amount,
            final(self).headers == old(self).headers,
            final(self).files == old(self).files,
            final(self).holds(Seq::empty()),
            r@ == if old(self).headers && i < strings_of(old(self).files).len() {
                header(strings_of(old(self).files)[i as int], i == 0)
            } else {
                Seq::empty()
            },
    {
        self.ring = Vec::new();
        self.bytes = Vec::new();
        self.lines = LineBuffer::new();
        proof {
            self.lemma_empty();
        }
        if self.headers && i < self.files.len() {
            header_line(self.files.at(i), i == 0)
        } else {
            String::new()
        }
    }

    /// Takes a chunk of the current input. Nothing is printed before the input ends.
    pub fn feed(&mut self, chunk: &[u8])
        ensures
            final(self).amount == old(self).amount,
            final(self).headers == old(self).headers,
            final(self).files == old(self).files,
            forall|input: Seq<u8>| #[trigger]
                old(self).holds(input) ==> final(self).holds(input + chunk@),
    {
        let ghost start = *self;
        match self.amount {
            Amount::Bytes(n) => {
                let ghost before = self.bytes@;
                append_all(&mut self.bytes, chunk);
                if self.bytes.len() > n {
                    let m = self.bytes.len();
                    self.bytes = part(&self.bytes, m - n, m);
                }
                proof {
                    assert forall|input: Seq<u8>| #[trigger] start.holds(input) implies self.holds(
                        input + chunk@,
                    ) by {
                        assert(self.bytes@ =~= last_of(input + chunk@, n as int));
                    }
                }
            },
            Amount::Lines(n) => {
                let lines = self.lines.feed(chunk);
                let ghost new = rows(lines@);
                let ghost ring0 = self.ring@;
                let mut i: usize = 0;
                proof {
                    assert(new.take(0) =~= Seq::<Seq<u8>>::empty());
                    assert forall|seen: Seq<Seq<u8>>|
                        rows(ring0) == #[trigger] last_of(seen, n as int) implies rows(
                        self.ring@,
                    ) == last_of(seen + new.take(0), n as int) by {
                        assert(seen + new.take(0) =~= seen);
                    }
                }
                while i < lines.len()
                    invariant
                        self.amount == start.amount,
                        self.headers == start.headers,
                        self.files == start.files,
                        self.lines@ == partial(start.lines@ + chunk@),
                        new == rows(lines@),
                        i <= lines@.len(),
                        forall|seen: Seq<Seq<u8>>|
                            rows(ring0) == #[trigger] last_of(seen, n as int) ==> rows(
                                self.ring@,
                            ) == last_of(seen + new.take(i as int), n as int),
                    decreases lines@.len() - i,
                {
                    let line = part(&lines[i], 0, lines[i].len());
                    let ghost before = self.ring@;
                    proof {
                        assert(line@ =~= new[i as int]);
                    }
                    keep_line(&mut self.ring, n, line);
                    proof {
                        assert forall|seen: Seq<Seq<u8>>|
                            rows(ring0) == #[trigger] last_of(seen, n as int) implies rows(
                            self.ring@,
                        ) == last_of(seen + new.take(i + 1), n as int) by {
                            let so_far = seen + new.take(i as int);
                            assert(seen + new.take(i + 1) =~= so_far.push(new[i as int]));
                            lemma_kept(rows(before), so_far, n as int, new[i as int]);
                        }
                    }
                    i += 1;
                }
                proof {
                    assert(new.take(i as int) =~= new);
                    assert forall|input: Seq<u8>| #[trigger] start.holds(input) implies self.holds(
                        input + chunk@,
                    ) by {
                        lemma_lines_append(input, chunk@);
                        assert(rows(ring0) == last_of(complete(input), n as int));
                    }
                }
            },
        }
    }

    /// Takes the end of the current input and gives what is printed: the last lines
    /// or bytes. A last line without a newline counts as a line and gets one.
    pub fn end(&mut self) -> (r: Vec<u8>)
        ensures
            final(self).amount == old(self).amount,
            final(self).headers == old(self).headers,
            final(self).files == old(self).files,
            forall|input: Seq<u8>| #[trigger]
                old(self).holds(input) ==> r@ == tail_output(old(self).amount, input),
    {
        let ghost start = *self;
        match self.amount {
            Amount::Bytes(_) => {
                let n = self.bytes.len();
                part(&self.bytes, 0, n)
            },
            Amount::Lines(n) => {
                if !self.lines.is_empty() {
                    let last = self.lines.take();
                    let ghost before = self.ring@;
                    keep_line(&mut self.ring, n, last);
                    proof {
                        assert forall|input: Seq<u8>| #[trigger] start.holds(input) implies rows(
                            self.ring@,
                        ) == last_of(all_lines(input), n as int) by {
                            lemma_kept(rows(before), complete(input), n as int, partial(input));
                        }
                    }
                }
                let mut out: Vec<u8> = Vec::new();
                let ghost all = rows(self.ring@);
                let mut i: usize = 0;
                proof {
                    assert(out@ + printed_from(all, 0)
                        =~= printed_from(all, 0));
                }
                while i < self.ring.len()
                    invariant
                        self.amount == start.amount,
                        self.headers == start.headers,
                        self.files == start.files,
                        all == rows(self.ring@),
                        i <= self.ring@.len(),
                        out@ + printed_from(all, i as int)
                            == printed_from(all, 0),
                    decreases self.ring@.len() - i,
                {
                    let ghost now = out@;
                    append_all(&mut out, &self.ring[i]);
                    out.push(10u8);
                    proof {
                        assert(out@ + printed_from(all, i + 1) =~= now
                            + printed_from(all, i as int));
                    }
                    i += 1;
                }
                proof {
                    assert(out@ =~= printed_from(all, 0));
                }
                out
            },
        }
    }

    /// The complaint about a file that cannot be opened. The exit code is then 1.
    pub fn refused(&self, path: &str, e: &IoError) -> (r: Said)
        ensures
            r.says(Seq::empty(), refusal("tail"@, path@, e.spec_message()), 1),
    {
        Said { out: String::new(), err: refusal_line("tail", path, e), code: 1 }
    }
}

/// The lines of an input, also a last one without a newline.
pub open spec fn all_lines(input: Seq<u8>) -> Seq<Seq<u8>> {
    if partial(input).len() == 0 {
        complete(input)
    } else {
        complete(input).push(partial(input))
    }
}

/// What is printed of an input: its last lines or bytes.
pub open spec fn tail_output(amount: Amount, input: Seq<u8>) -> Seq<u8> {
    match amount {
        Amount::Lines(n) => printed_from(
            last_of(all_lines(input), n as int),
            0,
        ),
        Amount::Bytes(n) => last_of(input, n as int),
    }
}

/// The last things of a row are those behind all but so many of them; all of them where
/// there are no more.
pub proof fn law_last_of<T>(a: Seq<T>, b: Seq<T>, n: int)
    ensures
        last_of(a + b, b.len() as int) == b,
        n >= b.len() ==> last_of(b, n) == b,
{
    if a.len() > 0 {
        assert((a + b).skip((a + b).len() - b.len()) =~= b);
    } else {
        assert(a + b =~= b);
    }
}

/// Whether no line holds a newline.
pub open spec fn are_lines(lines: Seq<Seq<u8>>) -> bool {
    forall|i: int, k: int|
        0 <= i < lines.len() && 0 <= k < lines[i].len() ==> #[trigger] lines[i][k] != 10u8
}

proof fn lemma_printed_joins(lines: Seq<Seq<u8>>, last: Seq<u8>, i: int)
    requires
        0 <= i <= lines.len(),
    ensures
        join_from(lines.push(last), seq![10u8], i) == printed_from(lines, i) + last,
    decreases lines.len() - i,
{
    let all = lines.push(last);
    if i < lines.len() {
        lemma_printed_joins(lines, last, i + 1);
        assert(all[i] == lines[i]);
        assert(join_from(all, seq![10u8], i) =~= printed_from(lines, i) + last);
    } else {
        assert(all[i] == last);
        assert(join_from(all, seq![10u8], i) =~= printed_from(lines, i) + last);
    }
}

/// The lines of an input are what its newlines end, and what stands behind the last one.
pub proof fn law_lines_of_an_input(lines: Seq<Seq<u8>>, last: Seq<u8>)
    requires
        are_lines(lines),
        forall|k: int| 0 <= k < last.len() ==> #[trigger] last[k] != 10u8,
    ensures
        all_lines(printed_from(lines, 0)) == lines,
        last.len() > 0 ==> all_lines(printed_from(lines, 0) + last) == lines.push(last),
{
    let none = Seq::<u8>::empty();
    lemma_printed_joins(lines, none, 0);
    lemma_printed_joins(lines, last, 0);
    assert(printed_from(lines, 0) + none =~= printed_from(lines, 0));
    assert forall|i: int, k: int|
        0 <= i < lines.push(none).len() && 0 <= k < lines.push(none)[i].len() implies #[trigger] lines.push(
    none)[i][k] != 10u8 by {
        assert(i < lines.len());
        assert(lines[i][k] != 10u8);
    }
    assert forall|i: int, k: int|
        0 <= i < lines.push(last).len() && 0 <= k < lines.push(last)[i].len() implies #[trigger] lines.push(
    last)[i][k] != 10u8 by {
        if i < lines.len() {
            assert(lines[i][k] != 10u8);
        }
    }
    law_joined_is_split(lines.push(none), 10u8);
    law_joined_is_split(lines.push(last), 10u8);
    assert(lines.push(none).drop_last() =~= lines);
    assert(lines.push(last).drop_last() =~= lines);
}

/// tail prints the last lines of an input, as many as it was asked for, or the last bytes.
pub proof fn law_tail_prints_the_last(
    front: Seq<Seq<u8>>,
    back: Seq<Seq<u8>>,
    a: Seq<u8>,
    b: Seq<u8>,
    n: usize,
)
    requires
        are_lines(front) && are_lines(back),
    ensures
        back.len() == n ==> tail_output(Amount::Lines(n), printed_from(front + back, 0))
            == printed_from(back, 0),
        back.len() <= n ==> tail_output(Amount::Lines(n), printed_from(back, 0)) == printed_from(
            back,
            0,
        ),
        b.len() == n ==> tail_output(Amount::Bytes(n), a + b) == b,
        b.len() <= n ==> tail_output(Amount::Bytes(n), b) == b,
{
    let all = front + back;
    assert forall|i: int, k: int|
        0 <= i < all.len() && 0 <= k < all[i].len() implies #[trigger] all[i][k] != 10u8 by {
        if i < front.len() {
            assert(front[i][k] != 10u8);
        } else {
            assert(back[i - front.len()][k] != 10u8);
        }
    }
    law_lines_of_an_input(all, Seq::empty());
    law_lines_of_an_input(back, Seq::empty());
    law_last_of(front, back, n as int);
    law_last_of(a, b, n as int);
}

/// The number of lines is the one that is given last, with a plus sign before it or
/// without, behind `-n` or behind a dash alone.
pub proof fn law_last_number_of_lines_counts(ts: Seq<Tok>, n: usize)
    ensures
        last_lines(ts.push(Tok::Valued('n', Some(decimal(n as nat)))), ts.len() as int + 1) == Some(
            n as nat,
        ),
        last_lines(
            ts.push(Tok::Valued('n', Some(seq!['+'] + decimal(n as nat)))),
            ts.len() as int + 1,
        ) == Some(n as nat),
        last_lines(ts.push(Tok::Digits(decimal(n as nat))), ts.len() as int + 1) == Some(n as nat),
        last_lines(Seq::empty(), 0) is None,
{
    let d = decimal(n as nat);
    law_decimal_is_read(n as nat, 'x', Seq::empty());
    lemma_decimal_reads_back(n as nat);
    assert(crate::text::is_digit(d[0]));
    assert((seq!['+'] + d).skip(1) =~= d);
}

/// `-n` and `-c` take a value, a dash can stand before a number, and no other option does; the first argument is the
/// name of the command.
pub proof fn law_options_with_values(name: Seq<char>, args: Seq<Seq<char>>)
    ensures
        tail_tokens(seq![name] + args) == crate::args::tokens(args, seq!['n', 'c'], true),
        tail_tokens(Seq::empty()).len() == 0,
{
    assert((seq![name] + args).skip(1) =~= args);
}

} // verus!
