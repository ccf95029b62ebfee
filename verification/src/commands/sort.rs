//! sort - sort lines of text
use vstd::prelude::*;
use vstd::string::StringExecFns;
use crate::args::{
    arg_tokens, has_short, last_value, last_valued, lex_args, toks, values, values_from, ArgToken, Tok,
};
use crate::commands::{refusal, refusal_line};
use crate::error::IoError;
use crate::lines::{complete, partial, LineBuffer};
use crate::list::{strings_of, Strings};
use crate::num::{parse_usize, read_usize};
use crate::order::{arranges, order, picked, repeats, Key};
use crate::text::{
    char_is_digit, is_digit, part, rows, split_words, strs, text_part, to_chars, to_text, trim,
    trim_chars, words,
};
use crate::unicode::{lossy, read_lossy, upper, uppercase};

verus! {

/// What sort was asked for.
#[derive(Debug, Clone, Copy, PartialEq, Eq, Structural)]
pub struct SortOptions {
    pub reverse: bool,
    pub numeric: bool,
    pub unique: bool,
    pub ignore_case: bool,
    /// The field that lines are sorted by, counted from one.
    pub key_field: Option<usize>,
}

/// What a line is sorted by: a field where one is asked for and there, else the
/// whole line.
pub open spec fn sort_key(line: Seq<char>, field: Option<usize>) -> Seq<char> {
    match field {
        Some(n) => if 0 < n <= words(line).len() {
            words(line)[n - 1]
        } else {
            line
        },
        None => line,
    }
}

/// Finds what a line is sorted by.
pub fn get_sort_key(line: &str, opts: &SortOptions) -> (r: String)
    ensures
        r@ == sort_key(line@, opts.key_field),
{
    match opts.key_field {
        Some(n) => {
            if n > 0 {
                let cs = to_chars(line);
                let ws = split_words(&cs);
                proof {
                    assert(rows(ws@).len() == ws@.len());
                }
                if n <= ws.len() {
                    proof {
                        assert(rows(ws@)[n - 1] == ws@[n - 1]@);
                    }
                    return to_text(&ws[n - 1]);
                }
            }
        },
        None => {},
    }
    line.to_owned()
}

/// Where a number that starts at `i` ends: digits, and one point unless `point` says
/// that it has come.
pub open spec fn number_end(s: Seq<char>, point: bool, i: int) -> int
    decreases s.len() - i,
{
    if i < 0 || i >= s.len() {
        i
    } else if is_digit(s[i]) {
        number_end(s, point, i + 1)
    } else if s[i] == '.' && !point {
        number_end(s, true, i + 1)
    } else {
        i
    }
}

/// The number that a text starts with, behind white space: a sign where there is
/// one, digits, and at most one point. None where there is no digit.
pub open spec fn leading_number(text: Seq<char>) -> Option<Seq<char>> {
    let s = trim(text);
    let from = if s.len() > 0 && (s[0] == '-' || s[0] == '+') {
        1int
    } else {
        0
    };
    let end = number_end(s, false, from);
    if exists|k: int| from <= k < end && is_digit(s[k]) {
        Some(s.take(end))
    } else {
        None
    }
}

/// Finds the number that a text starts with.
pub fn numeric_prefix(text: &str) -> (r: Option<String>)
    ensures
        match r {
            Some(p) => leading_number(text@) == Some(p@),
            None => leading_number(text@) is None,
        },
{
    let cs = to_chars(text);
    let s = trim_chars(&cs);
    let from: usize = if s.len() > 0 && (s[0] == '-' || s[0] == '+') {
        1
    } else {
        0
    };
    let mut i: usize = from;
    let mut point = false;
    let mut digit = false;
    while i < s.len() && (char_is_digit(s[i]) || (s[i] == '.' && !point))
        invariant
            from <= i <= s@.len(),
            number_end(s@, point, i as int) == number_end(s@, false, from as int),
            digit == exists|k: int| from <= k < i && is_digit(#[trigger] s@[k]),
        decreases s@.len() - i,
    {
        if char_is_digit(s[i]) {
            digit = true;
            proof {
                assert(is_digit(s@[i as int]));
            }
        } else {
            point = true;
        }
        i += 1;
    }
    if digit {
        proof {
            let k = choose|k: int| from <= k < i && is_digit(#[trigger] s@[k]);
            assert(from <= k < number_end(s@, false, from as int) && is_digit(s@[k]));
            assert(s@.subrange(0, i as int) =~= s@.take(i as int));
        }
        Some(text_part(&s, 0, i))
    } else {
        None
    }
}

impl SortOptions {
    /// Whether `key` is the key of a line. `rank` is the place of the number that it
    /// starts with. Where case is ignored, lower case is folded to upper case.
    pub open spec fn key_of(self, line: Seq<char>, rank: i64, key: Key) -> bool {
        let k = sort_key(line, self.key_field);
        if self.numeric {
            if leading_number(k) is Some {
                key == Key::Number(rank)
            } else {
                key matches Key::Text(t) && t@ == k
            }
        } else {
            key matches Key::Text(t) && t@ == if self.ignore_case {
                upper(k)
            } else {
                k
            }
        }
    }

    /// Whether `keys` are the keys of the lines.
    pub open spec fn keys_of(self, lines: Seq<Seq<char>>, ranks: Seq<i64>, keys: Seq<Key>) -> bool {
        keys.len() == lines.len() && forall|i: int|
            0 <= i < lines.len() ==> self.key_of(
                lines[i],
                if i < ranks.len() {
                    ranks[i]
                } else {
                    0
                },
                #[trigger] keys[i],
            )
    }
}

/// Whether `sorted` are the lines in the order that the options ask for. Lines that
/// are alike stay in the order that they came in.
pub open spec fn in_order(
    opts: SortOptions,
    lines: Seq<Seq<char>>,
    ranks: Seq<i64>,
    sorted: Seq<Seq<char>>,
) -> bool {
    exists|keys: Seq<Key>, o: Seq<usize>|
        opts.keys_of(lines, ranks, keys) && #[trigger] arranges(
            o,
            keys,
            opts.reverse,
            0,
            lines.len() as int,
        ) && sorted == picked(lines, o)
}

/// Sorts lines. `ranks` orders the numbers that the lines start with, one place for
/// each line: a smaller number has a smaller rank. It only counts where lines are
/// sorted as numbers.
pub fn sort_lines(lines: &Vec<String>, opts: &SortOptions, ranks: &Vec<i64>) -> (r: Vec<String>)
    ensures
        in_order(*opts, strs(lines@), ranks@, strs(r@)),
{
    let mut keys: Vec<Key> = Vec::new();
    let mut i: usize = 0;
    while i < lines.len()
        invariant
            i <= lines@.len(),
            keys@.len() == i,
            forall|k: int|
                0 <= k < i ==> opts.key_of(
                    lines@[k]@,
                    if k < ranks@.len() {
                        ranks@[k]
                    } else {
                        0
                    },
                    #[trigger] keys@[k],
                ),
        decreases lines@.len() - i,
    {
        let k = get_sort_key(lines[i].as_str(), opts);
        let key = if opts.numeric {
            if numeric_prefix(k.as_str()).is_some() {
                Key::Number(
                    if i < ranks.len() {
                        ranks[i]
                    } else {
                        0
                    },
                )
            } else {
                Key::Text(to_chars(k.as_str()))
            }
        } else if opts.ignore_case {
            let folded = uppercase(k.as_str());
            Key::Text(to_chars(folded.as_str()))
        } else {
            Key::Text(to_chars(k.as_str()))
        };
        keys.push(key);
        i += 1;
    }
    let o = order(&keys, opts.reverse);
    let mut out: Vec<String> = Vec::new();
    let mut i: usize = 0;
    while i < o.len()
        invariant
            i <= o@.len(),
            o@.len() == lines@.len(),
            forall|k: int| 0 <= k < o@.len() ==> 0 <= #[trigger] o@[k] < lines@.len(),
            out@.len() == i,
            forall|k: int| 0 <= k < i ==> (#[trigger] out@[k])@ == lines@[o@[k] as int]@,
        decreases o@.len() - i,
    {
        out.push(lines[o[i]].clone());
        i += 1;
    }
    proof {
        assert(strs(out@) =~= picked(strs(lines@), o@));
        assert(opts.keys_of(strs(lines@), ranks@, keys@));
        assert(arranges(o@, keys@, opts.reverse, 0, strs(lines@).len() as int));
    }
    out
}

/// The lines that are printed of sorted lines: all, or with `unique` those that repeat
/// no line before them.
pub open spec fn kept_lines(lines: Seq<Seq<char>>, unique: bool) -> Seq<Seq<char>>
    decreases lines.len(),
{
    if lines.len() == 0 {
        Seq::empty()
    } else {
        let kept = kept_lines(lines.drop_last(), unique);
        if unique && lines.drop_last().contains(lines.last()) {
            kept
        } else {
            kept.push(lines.last())
        }
    }
}

/// Lines as they are printed.
pub open spec fn lines_text(lines: Seq<Seq<char>>) -> Seq<char>
    decreases lines.len(),
{
    if lines.len() == 0 {
        Seq::empty()
    } else {
        lines_text(lines.drop_last()) + lines.last() + seq!['\n']
    }
}

/// Prints sorted lines.
pub fn print_lines(lines: &Vec<String>, unique: bool) -> (r: String)
    ensures
        r@ == lines_text(kept_lines(strs(lines@), unique)),
{
    let ghost all = strs(lines@);
    let mut out = String::new();
    let again = repeats(lines);
    let mut i: usize = 0;
    proof {
        assert(all.take(0) =~= Seq::<Seq<char>>::empty());
    }
    while i < lines.len()
        invariant
            all == strs(lines@),
            all.len() == lines@.len(),
            i <= lines@.len(),
            again@.len() == lines@.len(),
            forall|k: int|
                0 <= k < lines@.len() ==> #[trigger] again@[k] == all.take(k).contains(all[k]),
            out@ == lines_text(kept_lines(all.take(i as int), unique)),
        decreases lines@.len() - i,
    {
        let ghost kept = kept_lines(all.take(i as int), unique);
        let ghost before = out@;
        proof {
            assert(all[i as int] == lines@[i as int]@);
            assert(all.take(i + 1).drop_last() =~= all.take(i as int));
            assert(all.take(i + 1).last() == all[i as int]);
            assert(again@[i as int] == all.take(i as int).contains(all[i as int]));
        }
        if unique && again[i] {
        } else {
            out.append(lines[i].as_str());
            out.push('\n');
            proof {
                assert(kept.push(all[i as int]).drop_last() =~= kept);
                assert(out@ =~= before + all[i as int] + seq!['\n']);
            }
        }
        i += 1;
    }
    proof {
        assert(all.take(i as int) =~= all);
    }
    out
}

/// A running sort.
pub struct Sort {
    pub opts: SortOptions,
    /// The files to read; stdin where there are none.
    pub files: Strings,
    /// The lines of all inputs so far.
    pub lines: Vec<String>,
    /// What waits for its newline.
    pub waiting: LineBuffer,
}

/// What sort finds in its arguments.
pub open spec fn sort_tokens(argv: Seq<Seq<char>>) -> Seq<Tok> {
    arg_tokens(argv, seq!['k'], false)
}

/// Where the first comma or point from `i` on stands.
pub open spec fn field_end(s: Seq<char>, i: int) -> int
    decreases s.len() - i,
{
    if i < 0 || i >= s.len() || s[i] == ',' || s[i] == '.' {
        i
    } else {
        field_end(s, i + 1)
    }
}

/// The field that the value of `-k` given last means: the number before a comma or a
/// point.
pub open spec fn field_given(ts: Seq<Tok>) -> Option<nat> {
    match last_valued(ts, seq!['k'], ts.len() as int) {
        Some(v) => read_usize(v.take(field_end(v, 0))),
        None => None,
    }
}

fn read_field(ts: &Vec<ArgToken>) -> (r: Option<usize>)
    ensures
        match r {
            Some(n) => field_given(toks(ts@)) == Some(n as nat),
            None => field_given(toks(ts@)) is None,
        },
{
    let mut cs: Vec<char> = Vec::new();
    cs.push('k');
    proof {
        assert(cs@ =~= seq!['k']);
        assert(toks(ts@).len() == ts@.len());
    }
    match last_value(ts, &cs) {
        Some(v) => {
            let s = to_chars(v.as_str());
            let mut i: usize = 0;
            while i < s.len() && s[i] != ',' && s[i] != '.'
                invariant
                    i <= s@.len(),
                    field_end(s@, i as int) == field_end(s@, 0),
                decreases s@.len() - i,
            {
                i += 1;
            }
            let field = part(&s, 0, i);
            proof {
                assert(field@ =~= s@.take(i as int));
            }
            parse_usize(&field)
        },
        None => None,
    }
}

/// Starts sort.
pub fn run(argv: &Vec<String>) -> (r: Sort)
    ensures
        ({
            let ts = sort_tokens(strs(argv@));
            &&& r.opts.reverse == ts.contains(Tok::Short('r'))
            &&& r.opts.numeric == ts.contains(Tok::Short('n'))
            &&& r.opts.unique == ts.contains(Tok::Short('u'))
            &&& r.opts.ignore_case == ts.contains(Tok::Short('f'))
            &&& match r.opts.key_field {
                Some(n) => field_given(ts) == Some(n as nat),
                None => field_given(ts) is None,
            }
            &&& strings_of(r.files) == values_from(ts, 0)
            &&& r.lines@.len() == 0
            &&& r.waiting@.len() == 0
        }),
{
    let mut valued: Vec<char> = Vec::new();
    valued.push('k');
    proof {
        assert(valued@ =~= seq!['k']);
    }
    let ts = lex_args(argv, &valued, false);
    Sort {
        opts: SortOptions {
            reverse: has_short(&ts, 'r'),
            numeric: has_short(&ts, 'n'),
            unique: has_short(&ts, 'u'),
            ignore_case: has_short(&ts, 'f'),
            key_field: read_field(&ts),
        },
        files: values(&ts),
        lines: Vec::new(),
        waiting: LineBuffer::new(),
    }
}

/// Lines as texts.
pub open spec fn texts(lines: Seq<Seq<u8>>) -> Seq<Seq<char>> {
    lines.map_values(|l: Seq<u8>| lossy(l))
}

impl Sort {
    /// Takes a chunk of input.
    pub fn feed(&mut self, chunk: &[u8])
        ensures
            final(self).opts == old(self).opts,
            final(self).files == old(self).files,
            final(self).waiting@ == partial(old(self).waiting@ + chunk@),
            strs(final(self).lines@) == strs(old(self).lines@) + texts(
                complete(old(self).waiting@ + chunk@),
            ),
    {
        let ghost start = *self;
        let lines = self.waiting.feed(chunk);
        let ghost all = texts(rows(lines@));
        let mut i: usize = 0;
        proof {
            assert(strs(self.lines@) =~= strs(start.lines@) + all.take(0));
        }
        while i < lines.len()
            invariant
                self.opts == start.opts,
                self.files == start.files,
                self.waiting@ == partial(start.waiting@ + chunk@),
                all == texts(rows(lines@)),
                i <= lines@.len(),
                strs(self.lines@) == strs(start.lines@) + all.take(i as int),
            decreases lines@.len() - i,
        {
            let ghost before = self.lines@;
            let text = read_lossy(&lines[i]);
            self.lines.push(text);
            proof {
                assert(all[i as int] == text@);
                assert(strs(self.lines@) =~= strs(before).push(text@));
                assert(all.take(i + 1) =~= all.take(i as int).push(all[i as int]));
                assert(strs(self.lines@) =~= strs(start.lines@) + all.take(i + 1));
            }
            i += 1;
        }
        proof {
            assert(all.take(i as int) =~= all);
        }
    }

    /// Takes the end of an input: what waits is a line.
    pub fn end(&mut self)
        ensures
            final(self).opts == old(self).opts,
            final(self).files == old(self).files,
            final(self).waiting@.len() == 0,
            strs(final(self).lines@) == strs(old(self).lines@) + if old(self).waiting@.len() == 0 {
                Seq::empty()
            } else {
                seq![lossy(old(self).waiting@)]
            },
    {
        let ghost before = self.lines@;
        if !self.waiting.is_empty() {
            let last = self.waiting.take();
            let text = read_lossy(&last);
            self.lines.push(text);
            proof {
                assert(strs(self.lines@) =~= strs(before) + seq![text@]);
            }
        } else {
            proof {
                assert(strs(self.lines@) =~= strs(before) + Seq::<Seq<char>>::empty());
            }
        }
    }

    /// The complaint about a file that cannot be opened. The next file follows.
    pub fn refused(&self, path: &str, e: &IoError) -> (r: String)
        ensures
            r@ == refusal("sort"@, path@, e.spec_message()),
    {
        refusal_line("sort", path, e)
    }

    /// Sorts the lines and gives what is printed; `ranks` as in `sort_lines`.
    pub fn finish(&self, ranks: &Vec<i64>) -> (r: String)
        ensures
            exists|sorted: Seq<Seq<char>>| #[trigger]
                in_order(self.opts, strs(self.lines@), ranks@, sorted) && r@ == lines_text(
                    kept_lines(sorted, self.opts.unique),
                ),
    {
        let sorted = sort_lines(&self.lines, &self.opts, ranks);
        print_lines(&sorted, self.opts.unique)
    }
}

// ---------------------------------------------------------------------------
// Laws
// ---------------------------------------------------------------------------

/// Sorted lines are the lines that came, each as often.
pub proof fn law_sort_loses_nothing(
    opts: SortOptions,
    lines: Seq<Seq<char>>,
    ranks: Seq<i64>,
    sorted: Seq<Seq<char>>,
)
    requires
        in_order(opts, lines, ranks, sorted),
    ensures
        crate::order::rearranged(sorted, lines),
{
    let (keys, o) = choose|keys: Seq<Key>, o: Seq<usize>|
        opts.keys_of(lines, ranks, keys) && #[trigger] arranges(
            o,
            keys,
            opts.reverse,
            0,
            lines.len() as int,
        ) && sorted == picked(lines, o);
    assert forall|a: int, b: int| 0 <= a < b < o.len() implies #[trigger] o[a] != #[trigger] o[b] by {
        assert(crate::order::before(keys, opts.reverse, o[a] as int, o[b] as int));
    }
    assert(crate::order::permutes(o, lines.len() as int));
}

/// Of unique lines none is printed twice, and each line that came is printed.
pub proof fn law_unique_lines(lines: Seq<Seq<char>>)
    ensures
        kept_lines(lines, true).no_duplicates(),
        forall|l: Seq<char>| #[trigger] kept_lines(lines, true).contains(l) == lines.contains(l),
    decreases lines.len(),
{
    if lines.len() > 0 {
        let rest = lines.drop_last();
        let last = lines.last();
        let kept = kept_lines(rest, true);
        law_unique_lines(rest);
        assert(kept.contains(last) == rest.contains(last));
        assert(lines =~= rest.push(last));
        assert forall|l: Seq<char>| #[trigger]
            kept_lines(lines, true).contains(l) == lines.contains(l) by {
            assert(kept.contains(l) == rest.contains(l));
            lemma_contains_push(rest, last, l);
            lemma_contains_push(kept, last, l);
        }
        assert(kept_lines(lines, true).no_duplicates()) by {
            if !rest.contains(last) {
                assert forall|i: int, j: int|
                    0 <= i < kept.push(last).len() && 0 <= j < kept.push(last).len() && i
                        != j implies kept.push(last)[i] != kept.push(last)[j] by {
                    assert(i < kept.len() ==> kept[i] == kept.push(last)[i]);
                    assert(j < kept.len() ==> kept[j] == kept.push(last)[j]);
                    assert(i < kept.len() ==> kept.contains(kept[i]));
                    assert(j < kept.len() ==> kept.contains(kept[j]));
                }
            }
        }
    }
}

proof fn lemma_contains_push(s: Seq<Seq<char>>, x: Seq<char>, l: Seq<char>)
    ensures
        s.push(x).contains(l) == (s.contains(l) || l == x),
{
    if s.contains(l) {
        let i = choose|i: int| 0 <= i < s.len() && s[i] == l;
        assert(s.push(x)[i] == l);
    }
    assert(s.push(x)[s.len() as int] == x);
    if s.push(x).contains(l) {
        let i = choose|i: int| 0 <= i < s.push(x).len() && s.push(x)[i] == l;
        if i < s.len() {
            assert(s[i] == l);
        }
    }
}

/// The lines that a unique sort prints: each line that came, once.
pub proof fn law_unique_sort(
    opts: SortOptions,
    lines: Seq<Seq<char>>,
    ranks: Seq<i64>,
    sorted: Seq<Seq<char>>,
)
    requires
        in_order(opts, lines, ranks, sorted),
        lines.len() <= usize::MAX,
    ensures
        kept_lines(sorted, true).no_duplicates(),
        forall|l: Seq<char>| #[trigger] kept_lines(sorted, true).contains(l) == lines.contains(l),
{
    law_unique_lines(sorted);
    let (keys, o) = choose|keys: Seq<Key>, o: Seq<usize>|
        opts.keys_of(lines, ranks, keys) && #[trigger] arranges(
            o,
            keys,
            opts.reverse,
            0,
            lines.len() as int,
        ) && sorted == picked(lines, o);
    assert forall|l: Seq<char>| #[trigger] kept_lines(sorted, true).contains(l) == lines.contains(
        l,
    ) by {
        assert(kept_lines(sorted, true).contains(l) == sorted.contains(l));
        if sorted.contains(l) {
            let i = choose|i: int| 0 <= i < sorted.len() && sorted[i] == l;
            assert(lines[o[i] as int] == l);
        }
        if lines.contains(l) {
            let k = choose|k: int| 0 <= k < lines.len() && lines[k] == l;
            assert(o.contains(k as usize));
            let i = choose|i: int| 0 <= i < o.len() && o[i] == k as usize;
            assert(sorted[i] == l);
        }
    }
}

/// Plainly sorted lines stand in the order of their characters.
pub proof fn law_plain_sort_ascends(
    opts: SortOptions,
    lines: Seq<Seq<char>>,
    ranks: Seq<i64>,
    sorted: Seq<Seq<char>>,
)
    requires
        in_order(opts, lines, ranks, sorted),
        !opts.numeric,
        !opts.ignore_case,
        !opts.reverse,
        opts.key_field is None,
    ensures
        crate::order::ascending(sorted),
{
    let (keys, o) = choose|keys: Seq<Key>, o: Seq<usize>|
        opts.keys_of(lines, ranks, keys) && #[trigger] arranges(
            o,
            keys,
            opts.reverse,
            0,
            lines.len() as int,
        ) && sorted == picked(lines, o);
    assert forall|a: int, b: int| 0 <= a < b < sorted.len() implies crate::text::lex_le(
        #[trigger] sorted[a],
        #[trigger] sorted[b],
    ) by {
        assert(crate::order::before(keys, opts.reverse, o[a] as int, o[b] as int));
        let x = keys[o[a] as int];
        let y = keys[o[b] as int];
        assert(opts.key_of(
            lines[o[a] as int],
            if o[a] < ranks.len() {
                ranks[o[a] as int]
            } else {
                0
            },
            x,
        ));
        assert(opts.key_of(
            lines[o[b] as int],
            if o[b] < ranks.len() {
                ranks[o[b] as int]
            } else {
                0
            },
            y,
        ));
    }
}

/// Reversely sorted lines stand in the opposite order of their characters.
pub proof fn law_reverse_sort_descends(
    opts: SortOptions,
    lines: Seq<Seq<char>>,
    ranks: Seq<i64>,
    sorted: Seq<Seq<char>>,
)
    requires
        in_order(opts, lines, ranks, sorted),
        !opts.numeric,
        !opts.ignore_case,
        opts.reverse,
        opts.key_field is None,
    ensures
        forall|a: int, b: int|
            0 <= a < b < sorted.len() ==> crate::text::lex_le(
                #[trigger] sorted[b],
                #[trigger] sorted[a],
            ),
{
    assert forall|a: int, b: int| 0 <= a < b < sorted.len() implies crate::text::lex_le(
        #[trigger] sorted[b],
        #[trigger] sorted[a],
    ) by {
        let o = law_text_keys_in_order(opts, lines, ranks, sorted);
        assert(in_key_order(opts, lines, o, a, b));
    }
}

/// Where in the input the sorted lines stood: each line once.
pub open spec fn is_rearrangement(
    lines: Seq<Seq<char>>,
    sorted: Seq<Seq<char>>,
    o: Seq<usize>,
) -> bool {
    &&& o.len() == lines.len() && sorted.len() == lines.len()
    &&& forall|k: int| 0 <= k < o.len() ==> 0 <= #[trigger] o[k] < lines.len()
    &&& forall|j: int, k: int| 0 <= j < k < o.len() ==> #[trigger] o[j] != #[trigger] o[k]
    &&& forall|k: int| 0 <= k < o.len() ==> sorted[k] == lines[#[trigger] o[k] as int]
}

/// The text that a line is sorted by: a field of it or the whole, in upper case where
/// case does not matter.
pub open spec fn key_text(opts: SortOptions, line: Seq<char>) -> Seq<char> {
    let k = match opts.key_field {
        Some(n) => if n >= 1 && n <= words(line).len() {
            words(line)[n - 1]
        } else {
            line
        },
        None => line,
    };
    if opts.ignore_case {
        upper(k)
    } else {
        k
    }
}

/// Whether the lines at two places stand as a sort by text puts them: the lesser key
/// first, or last in a reverse sort, and lines of equal keys as they came.
pub open spec fn in_key_order(
    opts: SortOptions,
    lines: Seq<Seq<char>>,
    o: Seq<usize>,
    a: int,
    b: int,
) -> bool {
    let x = key_text(opts, lines[o[a] as int]);
    let y = key_text(opts, lines[o[b] as int]);
    &&& opts.reverse ==> crate::text::lex_le(y, x)
    &&& !opts.reverse ==> crate::text::lex_le(x, y)
    &&& x == y ==> o[a] < o[b]
}

/// Lines that are sorted as texts stand in the order of their keys, in the opposite one
/// in a reverse sort, and lines of equal keys in the order that they came in.
pub proof fn law_text_keys_in_order(
    opts: SortOptions,
    lines: Seq<Seq<char>>,
    ranks: Seq<i64>,
    sorted: Seq<Seq<char>>,
) -> (o: Seq<usize>)
    requires
        in_order(opts, lines, ranks, sorted),
        !opts.numeric,
    ensures
        is_rearrangement(lines, sorted, o),
        forall|a: int, b: int|
            0 <= a < b < sorted.len() ==> #[trigger] in_key_order(opts, lines, o, a, b),
{
    let (keys, o) = choose|keys: Seq<Key>, o: Seq<usize>|
        opts.keys_of(lines, ranks, keys) && #[trigger] arranges(
            o,
            keys,
            opts.reverse,
            0,
            lines.len() as int,
        ) && sorted == picked(lines, o);
    assert forall|a: int, b: int| 0 <= a < b < o.len() implies #[trigger] o[a] != #[trigger] o[b] by {
        assert(crate::order::before(keys, opts.reverse, o[a] as int, o[b] as int));
    }
    assert forall|a: int, b: int| 0 <= a < b < sorted.len() implies #[trigger] in_key_order(
        opts,
        lines,
        o,
        a,
        b,
    ) by {
        let i = o[a] as int;
        let j = o[b] as int;
        assert(crate::order::before(keys, opts.reverse, i, j));
        assert(opts.key_of(
            lines[i],
            if i < ranks.len() {
                ranks[i]
            } else {
                0
            },
            keys[i],
        ));
        assert(opts.key_of(
            lines[j],
            if j < ranks.len() {
                ranks[j]
            } else {
                0
            },
            keys[j],
        ));
        crate::text::lemma_lex_refl(key_text(opts, lines[i]));
    }
    o
}

/// Whether the lines at two places stand as a sort by number puts them: by the ranks of
/// their numbers, lines without a number behind them and by their texts, all the other
/// way round in a reverse sort, and lines of equal keys as they came.
pub open spec fn in_number_order(
    opts: SortOptions,
    lines: Seq<Seq<char>>,
    ranks: Seq<i64>,
    o: Seq<usize>,
    a: int,
    b: int,
) -> bool {
    let (i, j) = if opts.reverse {
        (o[b] as int, o[a] as int)
    } else {
        (o[a] as int, o[b] as int)
    };
    let x = sort_key(lines[i], opts.key_field);
    let y = sort_key(lines[j], opts.key_field);
    match (leading_number(x), leading_number(y)) {
        (Some(_), Some(_)) => ranks[i] <= ranks[j] && (ranks[i] == ranks[j] ==> o[a] < o[b]),
        (Some(_), None) => true,
        (None, Some(_)) => false,
        (None, None) => crate::text::lex_le(x, y) && (x == y ==> o[a] < o[b]),
    }
}

/// Lines that are sorted as numbers stand in the order of their numbers.
pub proof fn law_numbers_in_order(
    opts: SortOptions,
    lines: Seq<Seq<char>>,
    ranks: Seq<i64>,
    sorted: Seq<Seq<char>>,
) -> (o: Seq<usize>)
    requires
        in_order(opts, lines, ranks, sorted),
        opts.numeric,
        ranks.len() == lines.len(),
    ensures
        is_rearrangement(lines, sorted, o),
        forall|a: int, b: int|
            0 <= a < b < sorted.len() ==> #[trigger] in_number_order(opts, lines, ranks, o, a, b),
{
    let (keys, o) = choose|keys: Seq<Key>, o: Seq<usize>|
        opts.keys_of(lines, ranks, keys) && #[trigger] arranges(
            o,
            keys,
            opts.reverse,
            0,
            lines.len() as int,
        ) && sorted == picked(lines, o);
    assert forall|a: int, b: int| 0 <= a < b < o.len() implies #[trigger] o[a] != #[trigger] o[b] by {
        assert(crate::order::before(keys, opts.reverse, o[a] as int, o[b] as int));
    }
    assert forall|a: int, b: int| 0 <= a < b < sorted.len() implies #[trigger] in_number_order(
        opts,
        lines,
        ranks,
        o,
        a,
        b,
    ) by {
        let i = o[a] as int;
        let j = o[b] as int;
        assert(crate::order::before(keys, opts.reverse, i, j));
        assert(opts.key_of(lines[i], ranks[i], keys[i]));
        assert(opts.key_of(lines[j], ranks[j], keys[j]));
        crate::text::lemma_lex_refl(sort_key(lines[i], opts.key_field));
    }
    o
}

/// The field that a line is sorted by is its word of that number, and the whole line
/// where it has none.
pub proof fn law_field_is_a_word(line: Seq<char>, n: usize)
    ensures
        sort_key(line, None) == line,
        1 <= n <= words(line).len() ==> sort_key(line, Some(n)) == words(line)[n - 1],
        n == 0 || n > words(line).len() ==> sort_key(line, Some(n)) == line,
{
}

/// The number that a text starts with: its sign, its digits and a point among them, up to
/// the first character that belongs to none.
pub proof fn law_leading_number(sign: Seq<char>, whole: Seq<char>, part: Seq<char>, rest: Seq<char>)
    requires
        sign.len() == 0 || (sign.len() == 1 && (sign[0] == '-' || sign[0] == '+')),
        crate::num::all_digits(whole) && whole.len() > 0,
        part.len() == 0 || (part[0] == '.' && crate::num::all_digits(part.skip(1))),
        rest.len() > 0 ==> !is_digit(rest[0]) && rest[0] != '.',
        rest.len() > 0 ==> !crate::text::is_space(rest.last()),
    ensures
        leading_number(sign + whole + part + rest) == Some(sign + whole + part),
{
    let s = sign + whole + part + rest;
    let n = (sign.len() + whole.len() + part.len()) as int;
    let from = sign.len() as int;
    let point = from + whole.len();
    assert(is_digit(whole[0]));
    assert(s[from] == whole[0]);
    assert(!crate::text::is_space(s[0])) by {
        if sign.len() > 0 {
            assert(s[0] == sign[0]);
        }
    }
    assert(!crate::text::is_space(s.last())) by {
        if rest.len() > 0 {
            assert(s.last() == rest.last());
        } else if part.len() > 0 {
            assert(s.last() == part.last());
            if part.len() > 1 {
                assert(is_digit(part.skip(1)[part.len() - 2]));
            }
        } else {
            assert(is_digit(whole[whole.len() - 1]));
            assert(s.last() == whole.last());
        }
    }
    assert(trim(s) == s);
    if sign.len() == 0 {
        assert(s[0] == whole[0]);
    } else {
        assert(s[0] == sign[0]);
    }
    assert forall|k: int| from <= k < point implies is_digit(#[trigger] s[k]) by {
        assert(is_digit(whole[k - from]));
    }
    assert forall|k: int| point < k < n implies is_digit(#[trigger] s[k]) by {
        assert(is_digit(part.skip(1)[k - point - 1]));
    }
    if part.len() > 0 {
        assert(s[point] == part[0]);
    }
    if rest.len() > 0 {
        assert(s[n] == rest[0]);
    }
    lemma_digits_run(s, false, from, point);
    if part.len() > 0 {
        lemma_digits_run(s, true, point + 1, n);
    }
    assert(number_end(s, false, from) == n);
    assert(from <= from < n && is_digit(s[from]));
    assert(s.take(n) =~= sign + whole + part);
}

proof fn lemma_digits_run(s: Seq<char>, point: bool, i: int, end: int)
    requires
        0 <= i <= end <= s.len(),
        forall|k: int| i <= k < end ==> is_digit(#[trigger] s[k]),
    ensures
        number_end(s, point, i) == number_end(s, point, end),
    decreases end - i,
{
    if i < end {
        assert(is_digit(s[i]));
        lemma_digits_run(s, point, i + 1, end);
    }
}

/// A text that starts with no digit, sign or point has no number.
pub proof fn law_no_leading_number(c: char, rest: Seq<char>)
    requires
        !is_digit(c) && c != '-' && c != '+' && c != '.' && !crate::text::is_space(c),
        rest.len() > 0 ==> !crate::text::is_space(rest.last()),
    ensures
        leading_number(seq![c] + rest) is None,
        leading_number(Seq::empty()) is None,
{
    let s = seq![c] + rest;
    assert(s[0] == c);
    assert(s.last() == if rest.len() > 0 {
        rest.last()
    } else {
        c
    });
    assert(trim(s) == s);
    assert(number_end(s, false, 0) == 0);
    assert(trim(Seq::<char>::empty()).len() == 0);
    assert(number_end(Seq::<char>::empty(), false, 0) == 0);
}

/// Without `-u` every line is kept; with it a line that came before is not.
pub proof fn law_lines_that_are_kept(lines: Seq<Seq<char>>, last: Seq<char>)
    ensures
        kept_lines(lines, false) == lines,
        kept_lines(lines.push(last), true) == if lines.contains(last) {
            kept_lines(lines, true)
        } else {
            kept_lines(lines, true).push(last)
        },
    decreases lines.len(),
{
    assert(lines.push(last).drop_last() =~= lines);
    if lines.len() > 0 {
        law_lines_that_are_kept(lines.drop_last(), lines.last());
        assert(lines.drop_last().push(lines.last()) =~= lines);
    } else {
        assert(kept_lines(lines, false) =~= lines);
    }
}

/// The lines are printed each with its end.
pub proof fn law_lines_are_printed(lines: Seq<Seq<char>>, last: Seq<char>)
    ensures
        lines_text(Seq::empty()).len() == 0,
        lines_text(lines.push(last)) == lines_text(lines) + last + seq!['\n'],
{
    assert(lines.push(last).drop_last() =~= lines);
}

/// The field is the number that `-k` gives, up to a comma or a point.
pub proof fn law_field_that_is_given(ts: Seq<Tok>, n: usize, c: char, rest: Seq<char>)
    requires
        c == ',' || c == '.',
    ensures
        field_given(Seq::empty()) is None,
        field_given(ts.push(Tok::Valued('k', Some(crate::num::decimal(n as nat))))) == Some(
            n as nat,
        ),
        field_given(
            ts.push(Tok::Valued('k', Some(crate::num::decimal(n as nat) + seq![c] + rest))),
        ) == Some(n as nat),
{
    let d = crate::num::decimal(n as nat);
    let v = d + seq![c] + rest;
    let m = d.len() as int;
    crate::num::law_decimal_is_read(n as nat, 'x', Seq::empty());
    crate::num::lemma_decimal_reads_back(n as nat);
    let cs = seq!['k'];
    assert(cs[0] == 'k');
    assert(cs.contains('k'));
    assert forall|k: int| 0 <= k < m implies is_digit(#[trigger] d[k]) by {}
    lemma_field_end(d, 0, m);
    assert(d.take(m) =~= d);
    assert forall|k: int| 0 <= k < m implies is_digit(#[trigger] v[k]) by {
        assert(v[k] == d[k]);
    }
    assert(v[m] == c);
    lemma_field_end(v, 0, m);
    assert(v.take(m) =~= d);
}

proof fn lemma_field_end(s: Seq<char>, i: int, end: int)
    requires
        0 <= i <= end <= s.len(),
        forall|k: int| i <= k < end ==> is_digit(#[trigger] s[k]),
        end < s.len() ==> s[end] == ',' || s[end] == '.',
    ensures
        field_end(s, i) == end,
    decreases end - i,
{
    if i < end {
        assert(is_digit(s[i]));
        lemma_field_end(s, i + 1, end);
    }
}

/// `-k` takes a value and no other option does; the first argument is the name of the command.
pub proof fn law_options_with_values(name: Seq<char>, args: Seq<Seq<char>>)
    ensures
        sort_tokens(seq![name] + args) == crate::args::tokens(args, seq!['k'], false),
        sort_tokens(Seq::empty()).len() == 0,
{
    assert((seq![name] + args).skip(1) =~= args);
}

} // verus!
