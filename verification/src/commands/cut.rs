//! cut - remove sections from each line of files
use vstd::prelude::*;
use vstd::utf8::{decode_utf8, decode_utf8_encode_utf8, encode_utf8, valid_utf8};
use crate::args::{
    arg_tokens, has_short, last_value, last_valued, lex_args, toks, values, values_from, ArgToken, Tok,
};
use crate::commands::{refusal, refusal_line, Said, Start};
use crate::error::IoError;
use crate::lines::{fed, filtered, partial, LineBuffer};
use crate::list::{strings_of, Strings};
use crate::num::{
    decimal, law_decimal_is_read, lemma_decimal_reads_back, parse_usize, read_usize,
};
use crate::text::{
    append_all, append_text, find_char, find_from, is_digit, join, join_from, law_joined_is_split,
    lemma_find_from, lemma_find_is, lemma_join_behind, part, rows, split, split_chars, split_from,
    strs, to_chars, to_text, trim, trim_chars,
};
use crate::unicode::read_utf8;

verus! {

/// Places such as `1`, `1-3`, `-3` or `3-`, counted from one.
#[derive(Debug, Clone, Copy)]
pub struct Range {
    /// The first place; from the beginning where there is none.
    pub start: Option<usize>,
    /// The last place; to the end where there is none.
    pub end: Option<usize>,
}

impl Range {
    /// Whether a place lies in the range.
    pub open spec fn covers(self, idx: int) -> bool {
        (match self.start {
            Some(a) => a <= idx,
            None => 1 <= idx,
        }) && (match self.end {
            Some(b) => idx <= b,
            None => true,
        })
    }

    /// Tests whether a place lies in the range.
    pub fn contains(&self, idx: usize) -> (r: bool)
        ensures
            r == self.covers(idx as int),
    {
        let start = match self.start {
            Some(a) => a,
            None => 1,
        };
        match self.end {
            Some(end) => idx >= start && idx <= end,
            None => idx >= start,
        }
    }
}

pub open spec fn small(n: Option<nat>) -> Option<usize> {
    match n {
        Some(v) => Some(v as usize),
        None => None,
    }
}

/// The range that a text means; none where it means none.
pub open spec fn range_of(text: Seq<char>) -> Option<Range> {
    let t = trim(text);
    let j = find_from(t, '-', 0);
    if t.len() == 0 {
        None
    } else if j < t.len() {
        Some(
            Range {
                start: if j == 0 {
                    None
                } else {
                    small(read_usize(t.take(j)))
                },
                end: if j + 1 == t.len() {
                    None
                } else {
                    small(read_usize(t.skip(j + 1)))
                },
            },
        )
    } else {
        match read_usize(t) {
            Some(n) => Some(Range { start: Some(n as usize), end: Some(n as usize) }),
            None => None,
        }
    }
}

/// The ranges that the texts from `i` on mean.
pub open spec fn ranges_from(parts: Seq<Seq<char>>, i: int) -> Seq<Range>
    decreases parts.len() - i,
{
    if i < 0 || i >= parts.len() {
        Seq::empty()
    } else {
        match range_of(parts[i]) {
            Some(r) => seq![r] + ranges_from(parts, i + 1),
            None => ranges_from(parts, i + 1),
        }
    }
}

/// Whether a place lies in one of some ranges.
pub open spec fn covered(ranges: Seq<Range>, idx: int) -> bool {
    exists|i: int| 0 <= i < ranges.len() && (#[trigger] ranges[i]).covers(idx)
}

fn parse_range(text: &Vec<char>) -> (r: Option<Range>)
    ensures
        r == range_of(text@),
{
    let t = trim_chars(text);
    if t.len() == 0 {
        return None;
    }
    proof {
        lemma_find_from(t@, '-', 0);
    }
    let j = find_char(&t, '-', 0);
    if j < t.len() {
        let left = part(&t, 0, j);
        let right = part(&t, j + 1, t.len());
        proof {
            assert(left@ =~= t@.take(j as int));
            assert(right@ =~= t@.skip(j + 1));
        }
        let start = if left.len() == 0 {
            None
        } else {
            parse_usize(&left)
        };
        let end = if right.len() == 0 {
            None
        } else {
            parse_usize(&right)
        };
        Some(Range { start, end })
    } else {
        match parse_usize(&t) {
            Some(n) => Some(Range { start: Some(n), end: Some(n) }),
            None => None,
        }
    }
}

/// Reads ranges that commas divide.
pub fn parse_ranges(s: &str) -> (r: Vec<Range>)
    ensures
        r@ == ranges_from(split(s@, ','), 0),
{
    let cs = to_chars(s);
    let parts = split_chars(&cs, ',');
    let ghost all = rows(parts@);
    let mut out: Vec<Range> = Vec::new();
    let mut i: usize = 0;
    proof {
        assert(out@ + ranges_from(all, 0) =~= ranges_from(all, 0));
    }
    while i < parts.len()
        invariant
            all == rows(parts@),
            i <= parts@.len(),
            out@ + ranges_from(all, i as int) == ranges_from(all, 0),
        decreases parts@.len() - i,
    {
        let ghost before = out@;
        match parse_range(&parts[i]) {
            Some(r) => {
                out.push(r);
                proof {
                    assert(out@ + ranges_from(all, i + 1) =~= before + ranges_from(all, i as int));
                }
            },
            None => {},
        }
        i += 1;
    }
    proof {
        assert(out@ =~= ranges_from(all, 0));
    }
    out
}

/// Tests whether a place lies in one of some ranges.
pub fn in_ranges(idx: usize, ranges: &[Range]) -> (r: bool)
    ensures
        r == covered(ranges@, idx as int),
{
    let mut i: usize = 0;
    while i < ranges.len()
        invariant
            i <= ranges@.len(),
            forall|k: int| 0 <= k < i ==> !(#[trigger] ranges@[k]).covers(idx as int),
        decreases ranges@.len() - i,
    {
        if ranges[i].contains(idx) {
            return true;
        }
        i += 1;
    }
    false
}

/// What is cut out of a line.
#[derive(Debug, Clone, Copy, PartialEq, Eq, Structural)]
pub enum CutMode {
    /// Fields that a delimiter divides.
    Fields,
    /// Characters.
    Chars,
    /// Bytes.
    Bytes,
}

/// Of the parts from `i` on, those whose places are covered.
pub open spec fn chosen_from<T>(parts: Seq<T>, ranges: Seq<Range>, i: int) -> Seq<T>
    decreases parts.len() - i,
{
    if i < 0 || i >= parts.len() {
        Seq::empty()
    } else if covered(ranges, i + 1) {
        seq![parts[i]] + chosen_from(parts, ranges, i + 1)
    } else {
        chosen_from(parts, ranges, i + 1)
    }
}

/// Whether a delimiter stands at `i`.
pub open spec fn divides(line: Seq<u8>, delimiter: Seq<u8>, i: int) -> bool {
    0 <= i && i + delimiter.len() <= line.len() && line.subrange(i, i + delimiter.len())
        == delimiter
}

/// The fields of a line from `i` on that a delimiter divides. The field that is being
/// read starts at `from`.
pub open spec fn fields_from(line: Seq<u8>, delimiter: Seq<u8>, from: int, i: int) -> Seq<Seq<u8>>
    decreases line.len() - i,
{
    if i < 0 || i >= line.len() || delimiter.len() == 0 {
        seq![line.skip(from)]
    } else if divides(line, delimiter, i) {
        seq![line.subrange(from, i)] + fields_from(
            line,
            delimiter,
            i + delimiter.len(),
            i + delimiter.len(),
        )
    } else {
        fields_from(line, delimiter, from, i + 1)
    }
}

/// The fields of a line that a delimiter divides.
pub open spec fn fields_of(line: Seq<u8>, delimiter: Seq<u8>) -> Seq<Seq<u8>> {
    fields_from(line, delimiter, 0, 0)
}

/// The delimited fields of a line make up the line.
pub proof fn law_fields_join(line: Seq<u8>, delimiter: Seq<u8>)
    ensures
        join(fields_of(line, delimiter), delimiter) == line,
{
    lemma_fields_join(line, delimiter, 0, 0);
    assert(line.skip(0) =~= line);
}

proof fn lemma_fields_join(line: Seq<u8>, delimiter: Seq<u8>, from: int, i: int)
    requires
        0 <= from <= i <= line.len(),
    ensures
        fields_from(line, delimiter, from, i).len() > 0,
        join_from(fields_from(line, delimiter, from, i), delimiter, 0) == line.skip(from),
    decreases line.len() - i,
{
    if i >= line.len() || delimiter.len() == 0 {
    } else if divides(line, delimiter, i) {
        let next = i + delimiter.len();
        lemma_fields_join(line, delimiter, next, next);
        let rest = fields_from(line, delimiter, next, next);
        lemma_join_behind(line.subrange(from, i), rest, delimiter, 0);
        assert(line.skip(from) =~= line.subrange(from, i) + delimiter + line.skip(next));
    } else {
        lemma_fields_join(line, delimiter, from, i + 1);
    }
}

fn stands_at(line: &Vec<u8>, delimiter: &Vec<u8>, i: usize) -> (r: bool)
    requires
        i <= line@.len(),
    ensures
        r == divides(line@, delimiter@, i as int),
{
    if delimiter.len() > line.len() - i {
        return false;
    }
    let mut k: usize = 0;
    while k < delimiter.len()
        invariant
            k <= delimiter@.len(),
            line.len() == line@.len(),
            i + delimiter@.len() <= line@.len(),
            forall|j: int| 0 <= j < k ==> line@[i + j] == delimiter@[j],
        decreases delimiter@.len() - k,
    {
        if line[i + k] != delimiter[k] {
            proof {
                assert(line@.subrange(i as int, i + delimiter@.len())[k as int] != delimiter@[k as int]);
            }
            return false;
        }
        k += 1;
    }
    proof {
        assert(line@.subrange(i as int, i + delimiter@.len()) =~= delimiter@);
    }
    true
}

fn split_fields(line: &Vec<u8>, delimiter: &Vec<u8>) -> (r: Vec<Vec<u8>>)
    requires
        delimiter@.len() > 0,
    ensures
        rows(r@) == fields_of(line@, delimiter@),
{
    let ghost whole = fields_of(line@, delimiter@);
    let mut out: Vec<Vec<u8>> = Vec::new();
    let mut from: usize = 0;
    let mut i: usize = 0;
    proof {
        assert(rows(out@) + whole =~= whole);
    }
    while i < line.len()
        invariant
            delimiter@.len() > 0,
            from <= i <= line@.len(),
            rows(out@) + fields_from(line@, delimiter@, from as int, i as int) == whole,
        decreases line@.len() - i,
    {
        if stands_at(line, delimiter, i) {
            let ghost before = out@;
            let field = part(line, from, i);
            out.push(field);
            proof {
                let next = i + delimiter@.len();
                assert(rows(out@) =~= rows(before).push(field@));
                assert(rows(out@) + fields_from(line@, delimiter@, next, next) =~= rows(before)
                    + fields_from(line@, delimiter@, from as int, i as int));
            }
            i += delimiter.len();
            from = i;
        } else {
            i += 1;
        }
    }
    let ghost before = out@;
    let field = part(line, from, line.len());
    out.push(field);
    proof {
        assert(field@ =~= line@.skip(from as int));
        assert(rows(out@) =~= rows(before) + seq![field@]);
    }
    out
}

/// The characters of a text whose places are covered.
fn choose_chars(cs: &Vec<char>, ranges: &Vec<Range>) -> (r: Vec<char>)
    ensures
        r@ == chosen_from(cs@, ranges@, 0),
{
    let mut out: Vec<char> = Vec::new();
    let ghost whole = chosen_from(cs@, ranges@, 0);
    let mut i: usize = 0;
    proof {
        assert(out@ + whole =~= whole);
    }
    while i < cs.len()
        invariant
            i <= cs@.len(),
            cs.len() == cs@.len(),
            out@ + chosen_from(cs@, ranges@, i as int) == whole,
        decreases cs@.len() - i,
    {
        let ghost now = out@;
        if in_ranges(i + 1, ranges) {
            out.push(cs[i]);
            proof {
                assert(out@ + chosen_from(cs@, ranges@, i + 1) =~= now + chosen_from(
                    cs@,
                    ranges@,
                    i as int,
                ));
            }
        }
        i += 1;
    }
    proof {
        assert(out@ =~= whole);
    }
    out
}

/// A running cut.
pub struct Cut {
    pub mode: CutMode,
    pub ranges: Vec<Range>,
    /// What divides fields; at least one byte.
    pub delimiter: Vec<u8>,
    pub only_delimited: bool,
    /// The files to read; stdin where there are none.
    pub files: Strings,
    /// What waits for its newline.
    pub lines: LineBuffer,
}

impl Cut {
    pub open spec fn wf(self) -> bool {
        self.delimiter@.len() > 0
    }

    /// What is printed for a line. The bytes of a line that is no text count as its
    /// characters.
    pub open spec fn cut_line(self, line: Seq<u8>) -> Seq<u8> {
        if self.mode == CutMode::Fields {
            let fields = fields_of(line, self.delimiter@);
            if self.only_delimited && fields.len() == 1 {
                Seq::empty()
            } else {
                join(chosen_from(fields, self.ranges@, 0), self.delimiter@) + seq![10u8]
            }
        } else if self.mode == CutMode::Chars && valid_utf8(line) {
            encode_utf8(chosen_from(decode_utf8(line), self.ranges@, 0)) + seq![10u8]
        } else {
            chosen_from(line, self.ranges@, 0) + seq![10u8]
        }
    }

    pub open spec fn step(self) -> spec_fn((), Seq<u8>) -> ((), Seq<u8>) {
        |st: (), line: Seq<u8>| ((), self.cut_line(line))
    }

    /// Whether two cuts cut alike.
    pub open spec fn alike(self, other: Cut) -> bool {
        &&& self.mode == other.mode
        &&& self.ranges == other.ranges
        &&& self.delimiter == other.delimiter
        &&& self.only_delimited == other.only_delimited
        &&& self.files == other.files
    }

    fn line(&self, line: &Vec<u8>, out: &mut Vec<u8>)
        requires
            self.wf(),
        ensures
            final(out)@ == old(out)@ + self.cut_line(line@),
    {
        let ghost start = out@;
        if self.mode == CutMode::Fields {
            let fields = split_fields(line, &self.delimiter);
            let ghost all = rows(fields@);
            if self.only_delimited && fields.len() == 1 {
                proof {
                    assert(start + Seq::<u8>::empty() =~= start);
                }
                return ;
            }
            let ghost picked = chosen_from(all, self.ranges@, 0);
            let ghost sep = self.delimiter@;
            let ghost mut k: int = 0;
            let mut first = true;
            let mut i: usize = 0;
            proof {
                assert(start + join_from(picked, sep, 0) =~= out@ + tail_of(picked, sep, 0));
                assert(picked.skip(0) =~= picked);
            }
            while i < fields.len()
                invariant
                    all == rows(fields@),
                    all.len() == fields.len(),
                    i <= fields@.len(),
                    sep == self.delimiter@,
                    picked == chosen_from(all, self.ranges@, 0),
                    0 <= k <= picked.len(),
                    picked.skip(k) == chosen_from(all, self.ranges@, i as int),
                    first == (k == 0),
                    start + join_from(picked, sep, 0) == out@ + tail_of(picked, sep, k),
                decreases fields@.len() - i,
            {
                if in_ranges(i + 1, &self.ranges) {
                    let ghost now = out@;
                    proof {
                        assert(picked.skip(k).len() == picked.len() - k);
                        assert(picked.skip(k).len() > 0);
                        assert(picked.skip(k)[0] == all[i as int]);
                        assert(picked.skip(k)[0] == picked[k]);
                        assert(picked[k] == all[i as int]);
                        assert(picked.skip(k + 1) =~= picked.skip(k).skip(1));
                        assert(picked.skip(k).skip(1) =~= chosen_from(all, self.ranges@, i + 1));
                    }
                    if !first {
                        append_all(out, &self.delimiter);
                    }
                    append_all(out, &fields[i]);
                    first = false;
                    proof {
                        lemma_tail(picked, sep, k);
                        if k == 0 {
                            assert(out@ =~= now + picked[k]);
                        } else {
                            assert(out@ =~= now + (sep + picked[k]));
                        }
                        assert(out@ + tail_of(picked, sep, k + 1) =~= now + tail_of(
                            picked,
                            sep,
                            k,
                        ));
                        k = k + 1;
                    }
                }
                i += 1;
            }
            proof {
                assert(k == picked.len()) by {
                    assert(picked.skip(k).len() == 0);
                }
                assert(tail_of(picked, sep, k) =~= Seq::<u8>::empty());
                assert(out@ =~= start + join(picked, sep));
            }
            out.push(10u8);
            proof {
                assert(out@ =~= start + (join(picked, sep) + seq![10u8]));
            }
        } else {
            if self.mode == CutMode::Chars {
                let copy = part(line, 0, line.len());
                proof {
                    assert(copy@ =~= line@);
                }
                match read_utf8(copy) {
                    Some(s) => {
                        let cs = to_chars(s.as_str());
                        let chosen = choose_chars(&cs, &self.ranges);
                        let text = to_text(&chosen);
                        append_text(out, text.as_str());
                        out.push(10u8);
                        proof {
                            assert(out@ =~= start + (encode_utf8(text@) + seq![10u8]));
                        }
                        return ;
                    },
                    None => {},
                }
            }
            let mut i: usize = 0;
            let ghost whole = chosen_from(line@, self.ranges@, 0);
            while i < line.len()
                invariant
                    line.len() == line@.len(),
                    i <= line@.len(),
                    out@ + chosen_from(line@, self.ranges@, i as int) == start + whole,
                decreases line@.len() - i,
            {
                let ghost now = out@;
                if in_ranges(i + 1, &self.ranges) {
                    out.push(line[i]);
                    proof {
                        assert(out@ + chosen_from(line@, self.ranges@, i + 1) =~= now + chosen_from(
                            line@,
                            self.ranges@,
                            i as int,
                        ));
                    }
                }
                i += 1;
            }
            proof {
                assert(out@ =~= start + whole);
            }
            out.push(10u8);
            proof {
                assert(out@ =~= start + (whole + seq![10u8]));
            }
        }
    }

    /// Takes a chunk of input and gives what is printed.
    pub fn feed(&mut self, chunk: &[u8]) -> (r: Vec<u8>)
        requires
            old(self).wf(),
        ensures
            final(self).alike(*old(self)),
            (final(self).lines@, (), r@) == fed(old(self).lines@, (), old(self).step(), chunk@),
    {
        let ghost start = *self;
        let ghost f = self.step();
        let lines = self.lines.feed(chunk);
        let ghost all = rows(lines@);
        let ghost whole = filtered((), f, all, 0);
        let mut out: Vec<u8> = Vec::new();
        let mut i: usize = 0;
        proof {
            assert(out@ + whole.1 =~= whole.1);
        }
        while i < lines.len()
            invariant
                f == start.step(),
                self.wf(),
                self.alike(start),
                self.lines@ == partial(start.lines@ + chunk@),
                all == rows(lines@),
                i <= lines@.len(),
                out@ + filtered((), f, all, i as int).1 == whole.1,
            decreases lines@.len() - i,
        {
            let ghost now = out@;
            self.line(&lines[i], &mut out);
            proof {
                assert(all[i as int] == lines@[i as int]@);
                let (mid, s) = f((), all[i as int]);
                assert(s == self.cut_line(all[i as int]));
                let rest = filtered((), f, all, i + 1).1;
                assert(now + s + rest =~= now + (s + rest));
            }
            i += 1;
        }
        proof {
            assert(out@ + Seq::<u8>::empty() =~= out@);
        }
        out
    }

    /// Takes the end of an input and gives what is printed.
    pub fn end(&mut self) -> (r: Vec<u8>)
        requires
            old(self).wf(),
        ensures
            final(self).alike(*old(self)),
            final(self).lines@.len() == 0,
            r@ == if old(self).lines@.len() == 0 {
                Seq::empty()
            } else {
                old(self).cut_line(old(self).lines@)
            },
    {
        let mut out: Vec<u8> = Vec::new();
        if !self.lines.is_empty() {
            let last = self.lines.take();
            self.line(&last, &mut out);
            proof {
                assert(out@ =~= old(self).cut_line(old(self).lines@));
            }
        }
        out
    }

    /// The complaint about a file that cannot be opened. The next file follows.
    pub fn refused(&self, path: &str, e: &IoError) -> (r: String)
        ensures
            r@ == refusal("cut"@, path@, e.spec_message()),
    {
        refusal_line("cut", path, e)
    }
}

/// What follows behind the first `k` of some joined parts.
spec fn tail_of(parts: Seq<Seq<u8>>, sep: Seq<u8>, k: int) -> Seq<u8> {
    if k == 0 || k >= parts.len() {
        join_from(parts, sep, k)
    } else {
        sep + join_from(parts, sep, k)
    }
}

proof fn lemma_tail(parts: Seq<Seq<u8>>, sep: Seq<u8>, k: int)
    requires
        0 <= k < parts.len(),
    ensures
        tail_of(parts, sep, k) == (if k == 0 {
            parts[k]
        } else {
            sep + parts[k]
        }) + tail_of(parts, sep, k + 1),
{
    if k + 1 == parts.len() {
        assert(tail_of(parts, sep, k + 1) =~= Seq::<u8>::empty());
        assert(tail_of(parts, sep, k) =~= (if k == 0 {
            parts[k]
        } else {
            sep + parts[k]
        }) + tail_of(parts, sep, k + 1));
    } else {
        assert(tail_of(parts, sep, k) =~= (if k == 0 {
            parts[k]
        } else {
            sep + parts[k]
        }) + tail_of(parts, sep, k + 1));
    }
}

/// The delimiter that is given last among the first `n` tokens; a tab where none
/// is. An empty text gives none.
pub open spec fn delimiter_of(ts: Seq<Tok>, n: int) -> Seq<u8>
    decreases n,
{
    if n <= 0 || n > ts.len() {
        seq![9u8]
    } else {
        match ts[n - 1] {
            Tok::Valued('d', Some(v)) => if encode_utf8(v).len() > 0 {
                encode_utf8(v)
            } else {
                delimiter_of(ts, n - 1)
            },
            _ => delimiter_of(ts, n - 1),
        }
    }
}

fn read_delimiter(ts: &Vec<ArgToken>) -> (r: Vec<u8>)
    ensures
        r@ == delimiter_of(toks(ts@), ts@.len() as int),
        r@.len() > 0,
{
    let ghost all = toks(ts@);
    let mut n: usize = ts.len();
    while n > 0
        invariant
            all == toks(ts@),
            all.len() == ts@.len(),
            n <= ts@.len(),
            delimiter_of(all, ts@.len() as int) == delimiter_of(all, n as int),
        decreases n,
    {
        proof {
            assert(all[n - 1] == ts@[n - 1]@);
        }
        match &ts[n - 1] {
            ArgToken::Valued(c, Some(v)) => {
                if *c == 'd' {
                    let b = v.as_str().as_bytes();
                    if b.len() > 0 {
                        let d = part(b, 0, b.len());
                        proof {
                            assert(d@ =~= encode_utf8(v@));
                        }
                        return d;
                    }
                }
            },
            _ => {},
        }
        n -= 1;
    }
    let mut tab: Vec<u8> = Vec::new();
    tab.push(9u8);
    proof {
        assert(tab@ =~= seq![9u8]);
    }
    tab
}

/// The ranges that the last value of an option means; none where it is not given.
pub open spec fn option_ranges(ts: Seq<Tok>, c: char) -> Option<Seq<Range>> {
    match last_valued(ts, seq![c], ts.len() as int) {
        Some(v) => Some(ranges_from(split(v, ','), 0)),
        None => None,
    }
}

fn read_ranges(ts: &Vec<ArgToken>, c: char) -> (r: Option<Vec<Range>>)
    ensures
        match r {
            Some(v) => option_ranges(toks(ts@), c) == Some(v@),
            None => option_ranges(toks(ts@), c) is None,
        },
{
    let mut cs: Vec<char> = Vec::new();
    cs.push(c);
    proof {
        assert(cs@ =~= seq![c]);
        assert(toks(ts@).len() == ts@.len());
    }
    match last_value(ts, &cs) {
        Some(v) => Some(parse_ranges(v.as_str())),
        None => None,
    }
}

/// What cut finds in its arguments.
pub open spec fn cut_tokens(argv: Seq<Seq<char>>) -> Seq<Tok> {
    arg_tokens(argv, seq!['d', 'f', 'c', 'b'], false)
}

/// What is cut out, if exactly one of `-f`, `-c` and `-b` is given.
pub open spec fn cut_choice(ts: Seq<Tok>) -> Option<(CutMode, Seq<Range>)> {
    match (option_ranges(ts, 'f'), option_ranges(ts, 'c'), option_ranges(ts, 'b')) {
        (Some(r), None, None) => Some((CutMode::Fields, r)),
        (None, Some(r), None) => Some((CutMode::Chars, r)),
        (None, None, Some(r)) => Some((CutMode::Bytes, r)),
        _ => None,
    }
}

/// Starts cut.
pub fn run(argv: &Vec<String>) -> (r: Start<Cut>)
    ensures
        ({
            let ts = cut_tokens(strs(argv@));
            match (cut_choice(ts), r) {
                (None, Start::Done(said)) => said.says(
                    Seq::empty(),
                    "cut: you must specify exactly one of -b, -c, or -f"@ + seq!['\n'],
                    1,
                ),
                (Some((mode, ranges)), Start::Go(c)) => c.mode == mode && c.ranges@ == ranges
                    && c.wf() && c.delimiter@ == delimiter_of(ts, ts.len() as int) && c.only_delimited
                    == ts.contains(Tok::Short('s')) && strings_of(c.files) == values_from(ts, 0)
                    && c.lines@.len() == 0,
                _ => false,
            }
        }),
{
    let mut valued: Vec<char> = Vec::new();
    valued.push('d');
    valued.push('f');
    valued.push('c');
    valued.push('b');
    proof {
        assert(valued@ =~= seq!['d', 'f', 'c', 'b']);
    }
    let ts = lex_args(argv, &valued, false);
    proof {
        assert(toks(ts@).len() == ts@.len());
    }
    let fields = read_ranges(&ts, 'f');
    let chars = read_ranges(&ts, 'c');
    let bytes = read_ranges(&ts, 'b');
    let (mode, ranges) = match (fields, chars, bytes) {
        (Some(r), None, None) => (CutMode::Fields, r),
        (None, Some(r), None) => (CutMode::Chars, r),
        (None, None, Some(r)) => (CutMode::Bytes, r),
        _ => {
            return Start::Done(
                Said::complaint("cut: you must specify exactly one of -b, -c, or -f", 1),
            );
        },
    };
    Start::Go(
        Cut {
            mode,
            ranges,
            delimiter: read_delimiter(&ts),
            only_delimited: has_short(&ts, 's'),
            files: values(&ts),
            lines: LineBuffer::new(),
        },
    )
}

proof fn lemma_all_chosen<T>(parts: Seq<T>, ranges: Seq<Range>, i: int)
    requires
        forall|idx: int| 1 <= idx ==> covered(ranges, idx),
        0 <= i <= parts.len(),
    ensures
        chosen_from(parts, ranges, i) == parts.skip(i),
    decreases parts.len() - i,
{
    if i < parts.len() {
        lemma_all_chosen(parts, ranges, i + 1);
        assert(parts.skip(i) =~= seq![parts[i]] + parts.skip(i + 1));
    } else {
        assert(parts.skip(i) =~= Seq::<T>::empty());
    }
}

/// Where the ranges cover every place, each line is printed as it is.
pub proof fn law_all_places_keep_the_line(c: Cut, line: Seq<u8>)
    requires
        forall|idx: int| 1 <= idx ==> covered(c.ranges@, idx),
        !c.only_delimited,
    ensures
        c.cut_line(line) == line + seq![10u8],
{
    let fields = fields_of(line, c.delimiter@);
    law_fields_join(line, c.delimiter@);
    lemma_all_chosen(fields, c.ranges@, 0);
    lemma_all_chosen(line, c.ranges@, 0);
    lemma_all_chosen(decode_utf8(line), c.ranges@, 0);
    assert(fields.skip(0) =~= fields);
    assert(line.skip(0) =~= line);
    assert(decode_utf8(line).skip(0) =~= decode_utf8(line));
    if valid_utf8(line) {
        decode_utf8_encode_utf8(line);
    }
}

/// A part is taken where its place, counted from one, is covered, and the parts that are
/// taken keep their order.
pub proof fn law_covered_parts_are_taken<T>(parts: Seq<T>, ranges: Seq<Range>, last: T)
    ensures
        chosen_from(Seq::<T>::empty(), ranges, 0).len() == 0,
        chosen_from(parts.push(last), ranges, 0) == if covered(ranges, parts.len() as int + 1) {
            chosen_from(parts, ranges, 0).push(last)
        } else {
            chosen_from(parts, ranges, 0)
        },
{
    lemma_chosen_grows(parts, ranges, last, 0);
}

proof fn lemma_chosen_grows<T>(parts: Seq<T>, ranges: Seq<Range>, last: T, i: int)
    requires
        0 <= i <= parts.len(),
    ensures
        chosen_from(parts.push(last), ranges, i) == if covered(ranges, parts.len() as int + 1) {
            chosen_from(parts, ranges, i).push(last)
        } else {
            chosen_from(parts, ranges, i)
        },
    decreases parts.len() - i,
{
    let all = parts.push(last);
    reveal_with_fuel(chosen_from, 2);
    if i < parts.len() {
        assert(all[i] == parts[i]);
        lemma_chosen_grows(parts, ranges, last, i + 1);
        if covered(ranges, i + 1) {
            assert(chosen_from(all, ranges, i) =~= if covered(ranges, parts.len() as int + 1) {
                chosen_from(parts, ranges, i).push(last)
            } else {
                chosen_from(parts, ranges, i)
            });
        }
    } else {
        assert(chosen_from(all, ranges, i + 1) =~= Seq::<T>::empty());
        assert(chosen_from(all, ranges, i) =~= if covered(ranges, parts.len() as int + 1) {
            chosen_from(parts, ranges, i).push(last)
        } else {
            chosen_from(parts, ranges, i)
        });
    }
}

/// A place lies in a list of ranges where it lies in one of them.
pub proof fn law_one_range_is_enough(a: Seq<Range>, r: Range, idx: int)
    ensures
        !covered(Seq::<Range>::empty(), idx),
        covered(a.push(r), idx) == (covered(a, idx) || r.covers(idx)),
{
    let all = a.push(r);
    assert(all[a.len() as int] == r);
    if covered(a, idx) {
        let i = choose|i: int| 0 <= i < a.len() && (#[trigger] a[i]).covers(idx);
        assert(all[i] == a[i]);
    }
    if covered(all, idx) {
        let i = choose|i: int| 0 <= i < all.len() && (#[trigger] all[i]).covers(idx);
        if i < a.len() {
            assert(a[i] == all[i]);
        }
    }
}

/// A number means its place, two numbers with a dash between them the places from the first
/// to the second and both, and where one is left out, all before or behind.
pub proof fn law_ranges_are_read(a: usize, b: usize)
    ensures
        range_of(decimal(a as nat)) matches Some(r) && forall|idx: int| #[trigger]
            r.covers(idx) == (idx == a),
        range_of(decimal(a as nat) + seq!['-'] + decimal(b as nat)) matches Some(r) && forall|
            idx: int,
        | #[trigger] r.covers(idx) == (a <= idx <= b),
        range_of(decimal(a as nat) + seq!['-']) matches Some(r) && forall|idx: int| #[trigger]
            r.covers(idx) == (a <= idx),
        range_of(seq!['-'] + decimal(b as nat)) matches Some(r) && forall|idx: int| #[trigger]
            r.covers(idx) == (1 <= idx <= b),
        range_of(Seq::empty()) is None,
{
    let x = decimal(a as nat);
    let y = decimal(b as nat);
    law_decimal_is_read(a as nat, 'x', Seq::empty());
    law_decimal_is_read(b as nat, 'x', Seq::empty());
    lemma_decimal_reads_back(a as nat);
    lemma_decimal_reads_back(b as nat);
    let n = x.len() as int;
    assert(is_digit(x[0]) && is_digit(x[n - 1]));
    assert(is_digit(y[0]) && is_digit(y[y.len() - 1]));
    assert forall|k: int| 0 <= k < n implies x[k] != '-' by {
        assert(is_digit(x[k]));
    }
    lemma_find_is(x, '-', 0, n);
    assert(trim(x) == x);
    let both = x + seq!['-'] + y;
    assert(both[0] == x[0] && both.last() == y.last() && both[n] == '-');
    assert forall|k: int| 0 <= k < n implies both[k] != '-' by {
        assert(both[k] == x[k]);
    }
    lemma_find_is(both, '-', 0, n);
    assert(both.take(n) =~= x);
    assert(both.skip(n + 1) =~= y);
    assert(trim(both) == both);
    let from = x + seq!['-'];
    assert(from[0] == x[0] && from.last() == '-' && from[n] == '-');
    assert forall|k: int| 0 <= k < n implies from[k] != '-' by {
        assert(from[k] == x[k]);
    }
    lemma_find_is(from, '-', 0, n);
    assert(from.take(n) =~= x);
    assert(trim(from) == from);
    let to = seq!['-'] + y;
    assert(to[0] == '-' && to.last() == y.last());
    lemma_find_is(to, '-', 0, 0);
    assert(to.skip(1) =~= y);
    assert(trim(to) == to);
    assert(trim(Seq::<char>::empty()).len() == 0);
}

/// The ranges of a list are those that its texts mean, in their order, without the texts that
/// mean none.
pub proof fn law_texts_mean_ranges(parts: Seq<Seq<char>>, last: Seq<char>)
    ensures
        ranges_from(parts.push(last), 0) == match range_of(last) {
            Some(r) => ranges_from(parts, 0).push(r),
            None => ranges_from(parts, 0),
        },
{
    lemma_ranges_grow(parts, last, 0);
}

proof fn lemma_ranges_grow(parts: Seq<Seq<char>>, last: Seq<char>, i: int)
    requires
        0 <= i <= parts.len(),
    ensures
        ranges_from(parts.push(last), i) == match range_of(last) {
            Some(r) => ranges_from(parts, i).push(r),
            None => ranges_from(parts, i),
        },
    decreases parts.len() - i,
{
    let all = parts.push(last);
    reveal_with_fuel(ranges_from, 2);
    if i < parts.len() {
        assert(all[i] == parts[i]);
        lemma_ranges_grow(parts, last, i + 1);
        assert(ranges_from(all, i) =~= match range_of(last) {
            Some(r) => ranges_from(parts, i).push(r),
            None => ranges_from(parts, i),
        });
    } else {
        assert(all[i] == last);
        assert(ranges_from(all, i) =~= match range_of(last) {
            Some(r) => ranges_from(parts, i).push(r),
            None => ranges_from(parts, i),
        });
    }
}

/// A line that a single byte divides has as its fields what stands between those bytes.
pub proof fn law_fields_are_between_delimiters(fields: Seq<Seq<u8>>, d: u8)
    requires
        fields.len() > 0,
        forall|i: int, k: int|
            0 <= i < fields.len() && 0 <= k < fields[i].len() ==> #[trigger] fields[i][k] != d,
    ensures
        fields_of(join(fields, seq![d]), seq![d]) == fields,
{
    let line = join(fields, seq![d]);
    law_joined_is_split(fields, d);
    lemma_fields_are_split(line, d, 0, 0);
}

proof fn lemma_fields_are_split(line: Seq<u8>, d: u8, from: int, i: int)
    requires
        0 <= from <= i <= line.len(),
        forall|k: int| from <= k < i ==> line[k] != d,
    ensures
        fields_from(line, seq![d], from, i) == split_from(line, d, from),
    decreases line.len() - i,
{
    if i < line.len() {
        assert(line.subrange(i, i + 1) =~= seq![line[i]]);
        if line[i] == d {
            assert(divides(line, seq![d], i));
            lemma_find_is(line, d, from, i);
            lemma_fields_are_split(line, d, i + 1, i + 1);
        } else {
            assert(seq![line[i]][0] != seq![d][0]);
            lemma_fields_are_split(line, d, from, i + 1);
        }
    } else {
        lemma_find_is(line, d, from, i);
    }
}

/// A line without the delimiter is printed whole where the first field is, and not at all
/// where only delimited lines are asked for.
pub proof fn law_undelimited_lines(c: Cut, line: Seq<u8>, d: u8)
    requires
        c.mode == CutMode::Fields,
        c.delimiter@ == seq![d],
        forall|k: int| 0 <= k < line.len() ==> #[trigger] line[k] != d,
    ensures
        c.only_delimited ==> c.cut_line(line).len() == 0,
        !c.only_delimited && covered(c.ranges@, 1) ==> c.cut_line(line) == line + seq![10u8],
        !c.only_delimited && !covered(c.ranges@, 1) ==> c.cut_line(line) == seq![10u8],
{
    let fields = seq![line];
    assert(join(fields, seq![d]) == line);
    law_fields_are_between_delimiters(fields, d);
    reveal_with_fuel(chosen_from, 2);
    assert(chosen_from(fields, c.ranges@, 0) =~= if covered(c.ranges@, 1) {
        fields
    } else {
        Seq::<Seq<u8>>::empty()
    });
    assert(Seq::<u8>::empty() + seq![10u8] =~= seq![10u8]);
}

/// The delimiter is the one that is given last, and a tab where none is.
pub proof fn law_last_delimiter_counts(ts: Seq<Tok>, v: Seq<char>)
    requires
        encode_utf8(v).len() > 0,
    ensures
        delimiter_of(Seq::empty(), 0) == seq![9u8],
        delimiter_of(ts.push(Tok::Valued('d', Some(v))), ts.len() as int + 1) == encode_utf8(v),
{
}

/// Exactly one of `-f`, `-c` and `-b` says what is cut out.
pub proof fn law_what_is_cut_out(v: Seq<char>, w: Seq<char>)
    ensures
        cut_choice(seq![Tok::Valued('f', Some(v))]) == Some(
            (CutMode::Fields, ranges_from(split(v, ','), 0)),
        ),
        cut_choice(seq![Tok::Valued('c', Some(v))]) == Some(
            (CutMode::Chars, ranges_from(split(v, ','), 0)),
        ),
        cut_choice(seq![Tok::Valued('b', Some(v))]) == Some(
            (CutMode::Bytes, ranges_from(split(v, ','), 0)),
        ),
        cut_choice(Seq::empty()) is None,
        cut_choice(seq![Tok::Valued('f', Some(v)), Tok::Valued('c', Some(w))]) is None,
        cut_choice(seq![Tok::Valued('f', Some(v)), Tok::Valued('b', Some(w))]) is None,
        cut_choice(seq![Tok::Valued('c', Some(v)), Tok::Valued('b', Some(w))]) is None,
{
    reveal_with_fuel(last_valued, 3);
    let f = seq!['f'];
    let c = seq!['c'];
    let b = seq!['b'];
    assert(f[0] == 'f' && c[0] == 'c' && b[0] == 'b');
    assert(f.contains('f') && !f.contains('c') && !f.contains('b'));
    assert(c.contains('c') && !c.contains('f') && !c.contains('b'));
    assert(b.contains('b') && !b.contains('f') && !b.contains('c'));
}

/// `-d`, `-f`, `-c` and `-b` take a value and no other option does; the first argument is the
/// name of the command.
pub proof fn law_options_with_values(name: Seq<char>, args: Seq<Seq<char>>)
    ensures
        cut_tokens(seq![name] + args) == crate::args::tokens(args, seq!['d', 'f', 'c', 'b'], false),
        cut_tokens(Seq::empty()).len() == 0,
{
    assert((seq![name] + args).skip(1) =~= args);
}

/// Reading input changes nothing of what cut was asked for.
pub proof fn law_what_stays(a: Cut, b: Cut, line: Seq<u8>)
    ensures
        a.alike(b) ==> a.cut_line(line) == b.cut_line(line),
        a.alike(b) ==> a.files == b.files && a.ranges == b.ranges && a.mode == b.mode
            && a.delimiter == b.delimiter && a.only_delimited == b.only_delimited,
{
}

} // verus!
