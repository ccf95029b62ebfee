//! wc - word, line, character, and byte count
use vstd::prelude::*;
use vstd::string::StringExecFns;
use crate::args::{arg_tokens, has_short, lex_args, values, values_from, Tok};
use crate::commands::{refusal, refusal_line, Said};
use crate::error::IoError;
use crate::list::{strings_of, Strings};
use crate::num::{decimal, write_decimal};
use crate::text::{join, join_strings, pad_left, padded_left, strs};

verus! {

/// A byte that divides words: a blank, a tab, a newline, a form feed or a carriage
/// return.
pub open spec fn is_blank(b: u8) -> bool {
    b == 32 || b == 9 || b == 10 || b == 12 || b == 13
}

/// A byte that starts a character in UTF-8.
pub open spec fn starts_char(b: u8) -> bool {
    b < 0x80 || b >= 0xC0
}

pub open spec fn newlines(s: Seq<u8>) -> nat
    decreases s.len(),
{
    if s.len() == 0 {
        0
    } else {
        newlines(s.drop_last()) + if s.last() == 10 {
            1nat
        } else {
            0
        }
    }
}

pub open spec fn characters(s: Seq<u8>) -> nat
    decreases s.len(),
{
    if s.len() == 0 {
        0
    } else {
        characters(s.drop_last()) + if starts_char(s.last()) {
            1nat
        } else {
            0
        }
    }
}

/// Whether the last byte belongs to a word.
pub open spec fn ends_in_word(s: Seq<u8>) -> bool {
    s.len() > 0 && !is_blank(s.last())
}

/// The number of places where a word starts.
pub open spec fn word_starts(s: Seq<u8>) -> nat
    decreases s.len(),
{
    if s.len() == 0 {
        0
    } else {
        word_starts(s.drop_last()) + if !is_blank(s.last()) && !ends_in_word(s.drop_last()) {
            1nat
        } else {
            0
        }
    }
}

/// Counts of an input.
#[derive(Debug, Clone, Copy, PartialEq, Eq, Structural)]
pub struct Counts {
    pub lines: usize,
    pub words: usize,
    pub bytes: usize,
    pub chars: usize,
}

impl Counts {
    /// Whether these are the counts of an input.
    pub open spec fn counts(self, input: Seq<u8>) -> bool {
        &&& self.lines == newlines(input)
        &&& self.words == word_starts(input)
        &&& self.bytes == input.len()
        &&& self.chars == characters(input)
    }

    /// No counts.
    pub fn new() -> (r: Self)
        ensures
            r.counts(Seq::empty()),
    {
        Counts { lines: 0, words: 0, bytes: 0, chars: 0 }
    }

    /// Adds other counts.
    pub fn add(&mut self, other: &Counts)
        requires
            old(self).lines + other.lines <= usize::MAX,
            old(self).words + other.words <= usize::MAX,
            old(self).bytes + other.bytes <= usize::MAX,
            old(self).chars + other.chars <= usize::MAX,
        ensures
            final(self).lines == old(self).lines + other.lines,
            final(self).words == old(self).words + other.words,
            final(self).bytes == old(self).bytes + other.bytes,
            final(self).chars == old(self).chars + other.chars,
    {
        self.lines = self.lines + other.lines;
        self.words = self.words + other.words;
        self.bytes = self.bytes + other.bytes;
        self.chars = self.chars + other.chars;
    }
}

/// The counts of an input so far.
pub struct Counter {
    pub counts: Counts,
    /// Whether the last byte belongs to a word.
    pub in_word: bool,
}

proof fn lemma_counts_small(s: Seq<u8>)
    ensures
        newlines(s) <= s.len(),
        characters(s) <= s.len(),
        word_starts(s) <= s.len(),
    decreases s.len(),
{
    if s.len() > 0 {
        lemma_counts_small(s.drop_last());
    }
}

impl Counter {
    /// Whether this is what an input leaves.
    pub open spec fn holds(self, input: Seq<u8>) -> bool {
        self.counts.counts(input) && self.in_word == ends_in_word(input)
    }

    /// Nothing counted.
    pub fn new() -> (r: Self)
        ensures
            r.holds(Seq::empty()),
    {
        Counter { counts: Counts::new(), in_word: false }
    }

    fn count_byte(&mut self, b: u8, input: Ghost<Seq<u8>>)
        requires
            old(self).holds(input@),
            input@.len() < usize::MAX,
        ensures
            final(self).holds(input@.push(b)),
    {
        proof {
            lemma_counts_small(input@);
            assert(input@.push(b).drop_last() =~= input@);
        }
        self.counts.bytes = self.counts.bytes + 1;
        if b == 10 {
            self.counts.lines = self.counts.lines + 1;
        }
        if !(b >= 0x80 && b < 0xC0) {
            self.counts.chars = self.counts.chars + 1;
        }
        let blank = b == 32 || b == 9 || b == 10 || b == 12 || b == 13;
        if self.in_word && blank {
            self.in_word = false;
        } else if !self.in_word && !blank {
            self.in_word = true;
            self.counts.words = self.counts.words + 1;
        }
    }

    /// Counts a chunk.
    pub fn feed(&mut self, chunk: &[u8])
        requires
            old(self).counts.bytes + chunk@.len() <= usize::MAX,
            exists|input: Seq<u8>| #[trigger] old(self).holds(input),
        ensures
            forall|input: Seq<u8>| #[trigger]
                old(self).holds(input) ==> final(self).holds(input + chunk@),
    {
        let ghost start = *self;
        let ghost seen = choose|input: Seq<u8>| #[trigger] self.holds(input);
        let mut i: usize = 0;
        proof {
            assert(seen + chunk@.take(0) =~= seen);
        }
        while i < chunk.len()
            invariant
                seen.len() + chunk@.len() <= usize::MAX,
                i <= chunk@.len(),
                self.holds(seen + chunk@.take(i as int)),
            decreases chunk@.len() - i,
        {
            let ghost so_far = seen + chunk@.take(i as int);
            self.count_byte(chunk[i], Ghost(so_far));
            proof {
                assert(so_far.push(chunk@[i as int]) =~= seen + chunk@.take(i + 1));
            }
            i += 1;
        }
        proof {
            assert(chunk@.take(i as int) =~= chunk@);
            assert forall|input: Seq<u8>| #[trigger] start.holds(input) implies self.holds(
                input + chunk@,
            ) by {
                lemma_counts_agree(input, seen, chunk@);
            }
        }
    }
}

/// What is counted of two inputs that agree in their counts agrees after more has
/// come to both.
proof fn lemma_counts_agree(a: Seq<u8>, b: Seq<u8>, more: Seq<u8>)
    requires
        newlines(a) == newlines(b),
        characters(a) == characters(b),
        word_starts(a) == word_starts(b),
        a.len() == b.len(),
        ends_in_word(a) == ends_in_word(b),
    ensures
        newlines(a + more) == newlines(b + more),
        characters(a + more) == characters(b + more),
        word_starts(a + more) == word_starts(b + more),
        ends_in_word(a + more) == ends_in_word(b + more),
    decreases more.len(),
{
    if more.len() == 0 {
        assert(a + more =~= a);
        assert(b + more =~= b);
    } else {
        let front = more.drop_last();
        lemma_counts_agree(a, b, front);
        assert((a + more).drop_last() =~= a + front);
        assert((b + more).drop_last() =~= b + front);
        assert((a + more).last() == more.last());
        assert((b + more).last() == more.last());
    }
}

/// Which counts are printed.
#[derive(Debug, Clone, Copy, PartialEq, Eq, Structural)]
pub struct Shown {
    pub lines: bool,
    pub words: bool,
    pub chars: bool,
    pub bytes: bool,
}

/// A count as it is printed.
pub open spec fn cell(n: usize) -> Seq<char> {
    pad_left(decimal(n as nat), 7)
}

pub open spec fn cells(shown: Shown, c: Counts) -> Seq<Seq<char>> {
    (if shown.lines {
        seq![cell(c.lines)]
    } else {
        Seq::empty()
    }) + (if shown.words {
        seq![cell(c.words)]
    } else {
        Seq::empty()
    }) + (if shown.chars {
        seq![cell(c.chars)]
    } else {
        Seq::empty()
    }) + (if shown.bytes {
        seq![cell(c.bytes)]
    } else {
        Seq::empty()
    })
}

/// The line that is printed for counts.
pub open spec fn count_line(shown: Shown, c: Counts, name: Option<Seq<char>>) -> Seq<char> {
    join(cells(shown, c), " "@) + (match name {
        Some(n) => seq![' '] + n,
        None => Seq::empty(),
    }) + seq!['\n']
}

fn push_cell(parts: &mut Vec<String>, on: bool, n: usize)
    ensures
        strs(final(parts)@) == strs(old(parts)@) + (if on {
            seq![cell(n)]
        } else {
            Seq::empty()
        }),
{
    let ghost before = parts@;
    if on {
        let ds = write_decimal(n as u64);
        parts.push(padded_left(&ds, 7));
    }
    proof {
        assert(strs(parts@) =~= strs(before) + (if on {
            seq![cell(n)]
        } else {
            Seq::empty()
        }));
    }
}

/// The line that is printed for counts.
pub fn output_counts(shown: &Shown, c: &Counts, name: Option<&str>) -> (r: String)
    ensures
        r@ == count_line(
            *shown,
            *c,
            match name {
                Some(n) => Some(n@),
                None => None,
            },
        ),
{
    let mut parts: Vec<String> = Vec::new();
    push_cell(&mut parts, shown.lines, c.lines);
    push_cell(&mut parts, shown.words, c.words);
    push_cell(&mut parts, shown.chars, c.chars);
    push_cell(&mut parts, shown.bytes, c.bytes);
    proof {
        assert(strs(parts@) =~= cells(*shown, *c));
        assert(strs(parts@).skip(0) =~= strs(parts@));
    }
    let mut r = join_strings(&parts, 0, " ");
    let ghost lead = r@;
    match name {
        Some(n) => {
            r.push(' ');
            r.append(n);
            proof {
                assert(r@ =~= lead + (seq![' '] + n@));
            }
        },
        None => {
            proof {
                assert(r@ =~= lead + Seq::<char>::empty());
            }
        },
    }
    let ghost mid = r@;
    r.push('\n');
    proof {
        assert(r@ =~= mid + seq!['\n']);
    }
    r
}

/// What wc was asked for.
pub struct Wc {
    pub shown: Shown,
    /// The files to read; stdin where there are none.
    pub files: Strings,
}

/// What wc finds in its arguments.
pub open spec fn wc_tokens(argv: Seq<Seq<char>>) -> Seq<Tok> {
    arg_tokens(argv, Seq::empty(), false)
}

/// The counts that the options ask for: lines, words and bytes where they ask for
/// none.
pub open spec fn shown_by(ts: Seq<Tok>) -> Shown {
    let s = Shown {
        lines: ts.contains(Tok::Short('l')),
        words: ts.contains(Tok::Short('w')),
        chars: ts.contains(Tok::Short('m')),
        bytes: ts.contains(Tok::Short('c')),
    };
    if s.lines || s.words || s.chars || s.bytes {
        s
    } else {
        Shown { lines: true, words: true, chars: false, bytes: true }
    }
}

/// Starts wc.
pub fn run(argv: &Vec<String>) -> (r: Wc)
    ensures
        ({
            let ts = wc_tokens(strs(argv@));
            r.shown == shown_by(ts) && strings_of(r.files) == values_from(ts, 0)
        }),
{
    let none: Vec<char> = Vec::new();
    proof {
        assert(none@ =~= Seq::<char>::empty());
    }
    let ts = lex_args(argv, &none, false);
    let s = Shown {
        lines: has_short(&ts, 'l'),
        words: has_short(&ts, 'w'),
        chars: has_short(&ts, 'm'),
        bytes: has_short(&ts, 'c'),
    };
    let shown = if s.lines || s.words || s.chars || s.bytes {
        s
    } else {
        Shown { lines: true, words: true, chars: false, bytes: true }
    };
    Wc { shown, files: values(&ts) }
}

impl Wc {
    /// The line for an input that ended; without a name for stdin.
    pub fn end(&self, c: &Counts, name: Option<&str>) -> (r: String)
        ensures
            r@ == count_line(
                self.shown,
                *c,
                match name {
                    Some(n) => Some(n@),
                    None => None,
                },
            ),
    {
        output_counts(&self.shown, c, name)
    }

    /// The line for all files together: none unless there are several.
    pub fn finish(&self, total: &Counts) -> (r: String)
        ensures
            r@ == if strings_of(self.files).len() > 1 {
                count_line(self.shown, *total, Some("total"@))
            } else {
                Seq::empty()
            },
    {
        if self.files.len() > 1 {
            output_counts(&self.shown, total, Some("total"))
        } else {
            String::new()
        }
    }

    /// The complaint about a file that cannot be opened. The exit code is then 1.
    pub fn refused(&self, path: &str, e: &IoError) -> (r: Said)
        ensures
            r.says(Seq::empty(), refusal("wc"@, path@, e.spec_message()), 1),
    {
        Said { out: String::new(), err: refusal_line("wc", path, e), code: 1 }
    }
}

/// The counts of two inputs together are the sums of their counts, but that a word
/// that is cut between them counts once.
pub proof fn law_counts_add(a: Seq<u8>, b: Seq<u8>)
    ensures
        newlines(a + b) == newlines(a) + newlines(b),
        characters(a + b) == characters(a) + characters(b),
        word_starts(a + b) == word_starts(a) + word_starts(b) - (if ends_in_word(a) && b.len() > 0
            && !is_blank(b[0]) {
            1int
        } else {
            0
        }),
    decreases b.len(),
{
    if b.len() == 0 {
        assert(a + b =~= a);
    } else {
        let front = b.drop_last();
        law_counts_add(a, front);
        assert((a + b).drop_last() =~= a + front);
        assert((a + b).last() == b.last());
        if front.len() == 0 {
            assert(a + front =~= a);
            assert(b.last() == b[0]);
        } else {
            assert((a + front).last() == front.last());
            assert(front[0] == b[0]);
        }
    }
}

/// A newline is a line, a byte that divides no words is a word, and a byte that does not
/// continue a character is a character.
pub proof fn law_one_byte_counts(b: u8)
    ensures
        newlines(Seq::empty()) == 0 && word_starts(Seq::empty()) == 0 && characters(Seq::empty())
            == 0,
        newlines(seq![b]) == if b == 10 {
            1int
        } else {
            0
        },
        word_starts(seq![b]) == if b == 32 || b == 9 || b == 10 || b == 12 || b == 13 {
            0int
        } else {
            1
        },
        characters(seq![b]) == if 0x80 <= b < 0xC0 {
            0int
        } else {
            1
        },
{
    let s = seq![b];
    assert(s.drop_last() =~= Seq::<u8>::empty());
    assert(s.last() == b);
    reveal_with_fuel(newlines, 2);
    reveal_with_fuel(word_starts, 2);
    reveal_with_fuel(characters, 2);
}

/// The counts are printed in a fixed order: lines, words, characters, bytes, each to seven
/// places, and the name behind them.
pub proof fn law_order_of_counts(c: Counts, name: Seq<char>)
    ensures
        cells(Shown { lines: true, words: true, chars: true, bytes: true }, c) == seq![
            pad_left(decimal(c.lines as nat), 7),
            pad_left(decimal(c.words as nat), 7),
            pad_left(decimal(c.chars as nat), 7),
            pad_left(decimal(c.bytes as nat), 7),
        ],
        count_line(Shown { lines: true, words: false, chars: false, bytes: false }, c, None)
            == pad_left(decimal(c.lines as nat), 7) + seq!['\n'],
        count_line(Shown { lines: false, words: true, chars: false, bytes: false }, c, None)
            == pad_left(decimal(c.words as nat), 7) + seq!['\n'],
        count_line(Shown { lines: false, words: false, chars: true, bytes: false }, c, None)
            == pad_left(decimal(c.chars as nat), 7) + seq!['\n'],
        count_line(Shown { lines: false, words: false, chars: false, bytes: true }, c, Some(name))
            == pad_left(decimal(c.bytes as nat), 7) + seq![' '] + name + seq!['\n'],
        count_line(Shown { lines: true, words: true, chars: false, bytes: true }, c, Some(name))
            == pad_left(decimal(c.lines as nat), 7) + seq![' '] + pad_left(
            decimal(c.words as nat),
            7,
        ) + seq![' '] + pad_left(decimal(c.bytes as nat), 7) + seq![' '] + name + seq!['\n'],
{
    reveal_strlit(" ");
    assert(" "@ =~= seq![' ']);
    reveal_with_fuel(crate::text::join_from, 4);
    let l = pad_left(decimal(c.lines as nat), 7);
    let w = pad_left(decimal(c.words as nat), 7);
    let m = pad_left(decimal(c.chars as nat), 7);
    let b = pad_left(decimal(c.bytes as nat), 7);
    assert(cells(Shown { lines: true, words: true, chars: true, bytes: true }, c) =~= seq![
        l,
        w,
        m,
        b,
    ]);
    assert(cells(Shown { lines: true, words: false, chars: false, bytes: false }, c) =~= seq![l]);
    assert(cells(Shown { lines: false, words: true, chars: false, bytes: false }, c) =~= seq![w]);
    assert(cells(Shown { lines: false, words: false, chars: true, bytes: false }, c) =~= seq![m]);
    assert(cells(Shown { lines: false, words: false, chars: false, bytes: true }, c) =~= seq![b]);
    assert(cells(Shown { lines: true, words: true, chars: false, bytes: true }, c) =~= seq![
        l,
        w,
        b,
    ]);
    assert(count_line(Shown { lines: true, words: false, chars: false, bytes: false }, c, None)
        =~= l + seq!['\n']);
    assert(count_line(Shown { lines: false, words: true, chars: false, bytes: false }, c, None)
        =~= w + seq!['\n']);
    assert(count_line(Shown { lines: false, words: false, chars: true, bytes: false }, c, None)
        =~= m + seq!['\n']);
    assert(join(seq![l, w, b], seq![' ']) =~= l + seq![' '] + w + seq![' '] + b);
    assert(count_line(
        Shown { lines: false, words: false, chars: false, bytes: true },
        c,
        Some(name),
    ) =~= b + seq![' '] + name + seq!['\n']);
    assert(count_line(
        Shown { lines: true, words: true, chars: false, bytes: true },
        c,
        Some(name),
    ) =~= l + seq![' '] + w + seq![' '] + b + seq![' '] + name + seq!['\n']);
}

/// Where nothing is asked for, lines, words and bytes are shown.
pub proof fn law_counts_that_are_shown(ts: Seq<Tok>)
    ensures
        shown_by(Seq::empty()) == (Shown { lines: true, words: true, chars: false, bytes: true }),
        shown_by(seq![Tok::Short('l')]) == (Shown {
            lines: true,
            words: false,
            chars: false,
            bytes: false,
        }),
        shown_by(seq![Tok::Short('w')]) == (Shown {
            lines: false,
            words: true,
            chars: false,
            bytes: false,
        }),
        shown_by(seq![Tok::Short('m')]) == (Shown {
            lines: false,
            words: false,
            chars: true,
            bytes: false,
        }),
        shown_by(seq![Tok::Short('c')]) == (Shown {
            lines: false,
            words: false,
            chars: false,
            bytes: true,
        }),
        ts.contains(Tok::Short('l')) ==> shown_by(ts).lines,
        ts.contains(Tok::Short('w')) ==> shown_by(ts).words,
        ts.contains(Tok::Short('m')) ==> shown_by(ts).chars,
        ts.contains(Tok::Short('c')) ==> shown_by(ts).bytes,
{
    let l = seq![Tok::Short('l')];
    let w = seq![Tok::Short('w')];
    let m = seq![Tok::Short('m')];
    let c = seq![Tok::Short('c')];
    assert(l[0] == Tok::Short('l') && w[0] == Tok::Short('w'));
    assert(m[0] == Tok::Short('m') && c[0] == Tok::Short('c'));
    assert(l.contains(Tok::Short('l')) && w.contains(Tok::Short('w')));
    assert(m.contains(Tok::Short('m')) && c.contains(Tok::Short('c')));
}

/// No option takes a value; the first argument is the name of the command.
pub proof fn law_options_with_values(name: Seq<char>, args: Seq<Seq<char>>)
    ensures
        wc_tokens(seq![name] + args) == crate::args::tokens(args, Seq::empty(), false),
        wc_tokens(Seq::empty()).len() == 0,
{
    assert((seq![name] + args).skip(1) =~= args);
}

/// What is counted: newlines, words, bytes and characters.
pub proof fn law_what_is_counted(c: Counts, input: Seq<u8>)
    requires
        c.counts(input),
    ensures
        c.lines == newlines(input),
        c.words == word_starts(input),
        c.bytes == input.len(),
        c.chars == characters(input),
{
}

} // verus!
