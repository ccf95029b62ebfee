//! grep - print lines that match patterns
use vstd::prelude::*;
use vstd::string::StringExecFns;
use crate::args::{
    arg_tokens, has_short, last_value, last_valued, lex_args, toks, ArgToken, Tok,
};
use crate::commands::{refusal, refusal_line, Said, Start};
use crate::error::IoError;
use crate::lines::{fed, filtered, LineBuffer};
use crate::list::{strings_of, Strings};
use crate::num::{decimal, parse_usize, read_usize, write_decimal};
use crate::text::{
    chars_at, contains_chars, contains_sub, ends_with, find_chars, find_sub_from, join, join_from,
    lemma_find_sub, lemma_rows_push, occurs_at, part, push_chars, rows, starts_with, strs, to_chars,
};
use crate::unicode::{lossy, lower, lowercase, read_lossy};

verus! {

/// What grep was asked for.
#[derive(Debug)]
pub struct GrepOptions {
    pub case_insensitive: bool,
    pub invert: bool,
    pub line_numbers: bool,
    pub count_only: bool,
    pub files_only: bool,
    pub quiet: bool,
    pub fixed_string: bool,
    pub before_context: usize,
    pub after_context: usize,
    /// The pattern, in lower case where case does not matter.
    pub pattern: String,
}

// ---------------------------------------------------------------------------
// Patterns
// ---------------------------------------------------------------------------

/// The parts of a pattern from `from` on between the places where `.*` stands.
pub open spec fn star_parts(p: Seq<char>, from: int) -> Seq<Seq<char>>
    decreases p.len() - from,
{
    match find_sub_from(p, seq!['.', '*'], from) {
        Some(j) => if 0 <= from <= j && j + 2 <= p.len() {
            seq![p.subrange(from, j)] + star_parts(p, j + 2)
        } else {
            seq![p.skip(from)]
        },
        None => seq![p.skip(from)],
    }
}

/// Whether the parts from `i` on occur in the text one behind the other, each at
/// the first place that is left to it.
pub open spec fn occur_in_order(text: Seq<char>, parts: Seq<Seq<char>>, i: int, from: int) -> bool
    decreases parts.len() - i,
{
    if i < 0 || i >= parts.len() {
        true
    } else if parts[i].len() == 0 {
        occur_in_order(text, parts, i + 1, from)
    } else {
        match find_sub_from(text, parts[i], from) {
            Some(j) => occur_in_order(text, parts, i + 1, j + parts[i].len()),
            None => false,
        }
    }
}

/// Whether a text matches a pattern: `^` binds it to the start, `$` to the end, and
/// `.*` stands for anything.
pub open spec fn pattern_matches(text: Seq<char>, p: Seq<char>) -> bool {
    let n = p.len() as int;
    if n > 0 && p[0] == '^' {
        if n > 1 && p[n - 1] == '$' {
            text == p.subrange(1, n - 1)
        } else {
            starts_with(text, p.skip(1))
        }
    } else if n > 0 && p[n - 1] == '$' {
        ends_with(text, p.take(n - 1))
    } else if contains_sub(p, seq!['.', '*']) {
        occur_in_order(text, star_parts(p, 0), 0, 0)
    } else {
        contains_sub(text, p)
    }
}

fn split_stars(p: &Vec<char>) -> (r: Vec<Vec<char>>)
    ensures
        rows(r@) == star_parts(p@, 0),
{
    let mut star: Vec<char> = Vec::new();
    star.push('.');
    star.push('*');
    proof {
        assert(star@ =~= seq!['.', '*']);
    }
    let mut out: Vec<Vec<char>> = Vec::new();
    let mut from: usize = 0;
    proof {
        assert(rows(out@) + star_parts(p@, 0) =~= star_parts(p@, 0));
    }
    loop
        invariant
            star@ == seq!['.', '*'],
            from <= p@.len(),
            rows(out@) + star_parts(p@, from as int) == star_parts(p@, 0),
        decreases p@.len() - from,
    {
        let ghost before = out@;
        proof {
            lemma_find_sub(p@, star@, from as int);
        }
        match find_chars(p, &star, from) {
            Some(j) => {
                let piece = part(p, from, j);
                out.push(piece);
                proof {
                    lemma_rows_push(before, piece);
                    assert(rows(out@) + star_parts(p@, j + 2) =~= rows(before) + star_parts(
                        p@,
                        from as int,
                    ));
                }
                from = j + 2;
            },
            None => {
                let piece = part(p, from, p.len());
                out.push(piece);
                proof {
                    lemma_rows_push(before, piece);
                    assert(piece@ =~= p@.skip(from as int));
                    assert(rows(out@) =~= rows(before) + star_parts(p@, from as int));
                }
                return out;
            },
        }
    }
}

/// Tests whether a text matches a pattern: `^` binds it to the start, `$` to the
/// end, and `.*` stands for anything.
pub fn simple_pattern_match(text: &str, pattern: &str) -> (r: bool)
    ensures
        r == pattern_matches(text@, pattern@),
{
    let t = to_chars(text);
    let p = to_chars(pattern);
    match_chars(&t, &p)
}

fn same_chars(a: &Vec<char>, b: &Vec<char>) -> (r: bool)
    ensures
        r == (a@ == b@),
{
    let r = a.len() == b.len() && chars_at(a, b, 0);
    proof {
        if r {
            assert(a@ =~= b@) by {
                assert(a@ =~= a@.subrange(0, b@.len() as int));
            }
        }
        if a@ == b@ {
            assert(a@.subrange(0, b@.len() as int) =~= b@);
        }
    }
    r
}

fn match_chars(t: &Vec<char>, p: &Vec<char>) -> (r: bool)
    ensures
        r == pattern_matches(t@, p@),
{
    let n = p.len();
    if n > 0 && p[0] == '^' {
        if n > 1 && p[n - 1] == '$' {
            let inner = part(p, 1, n - 1);
            return same_chars(t, &inner);
        }
        let inner = part(p, 1, n);
        proof {
            assert(inner@ =~= p@.skip(1));
        }
        return chars_at(t, &inner, 0);
    }
    if n > 0 && p[n - 1] == '$' {
        let inner = part(p, 0, n - 1);
        proof {
            assert(inner@ =~= p@.take(n - 1));
        }
        if inner.len() > t.len() {
            return false;
        }
        return chars_at(t, &inner, t.len() - inner.len());
    }
    let mut star: Vec<char> = Vec::new();
    star.push('.');
    star.push('*');
    proof {
        assert(star@ =~= seq!['.', '*']);
    }
    if contains_chars(p, &star) {
        let parts = split_stars(p);
        let ghost all = rows(parts@);
        let mut from: usize = 0;
        let mut i: usize = 0;
        while i < parts.len()
            invariant
                all == rows(parts@),
                i <= parts@.len(),
                from <= t@.len(),
                occur_in_order(t@, all, i as int, from as int) == pattern_matches(t@, p@),
            decreases parts@.len() - i,
        {
            if parts[i].len() > 0 {
                proof {
                    lemma_find_sub(t@, parts@[i as int]@, from as int);
                }
                match find_chars(t, &parts[i], from) {
                    Some(j) => {
                        from = j + parts[i].len();
                    },
                    None => {
                        return false;
                    },
                }
            }
            i += 1;
        }
        return true;
    }
    contains_chars(t, p)
}

// ---------------------------------------------------------------------------
// One input
// ---------------------------------------------------------------------------

/// Where the search of one input stands.
pub struct ScanState {
    /// How many lines have been read.
    pub num: nat,
    /// The lines that are printed if the next line matches.
    pub ring: Seq<(nat, Seq<char>)>,
    /// How many more lines are printed though they do not match.
    pub after: nat,
    /// The number of the line that was printed last.
    pub last: nat,
    /// Whether a matching line has been printed.
    pub any: bool,
    /// How many lines have matched.
    pub count: nat,
    /// Whether the rest of the input does not matter.
    pub stopped: bool,
}

/// How a line is printed.
pub open spec fn printed(
    name: Option<Seq<char>>,
    numbers: bool,
    sep: char,
    num: nat,
    text: Seq<char>,
) -> Seq<char> {
    (match name {
        Some(f) => f + seq![sep],
        None => Seq::empty(),
    }) + (if numbers {
        decimal(num) + seq![sep]
    } else {
        Seq::empty()
    }) + text + seq!['\n']
}

/// The lines from `i` on that have not been printed yet, as they are printed before
/// a match, and the number of the last line printed then.
pub open spec fn context_before(
    name: Option<Seq<char>>,
    numbers: bool,
    ring: Seq<(nat, Seq<char>)>,
    last: nat,
    i: int,
) -> (Seq<char>, nat)
    decreases ring.len() - i,
{
    if i < 0 || i >= ring.len() {
        (Seq::empty(), last)
    } else if ring[i].0 > last {
        let (text, end) = context_before(name, numbers, ring, ring[i].0, i + 1);
        (printed(name, numbers, '-', ring[i].0, ring[i].1) + text, end)
    } else {
        context_before(name, numbers, ring, last, i + 1)
    }
}

impl GrepOptions {
    /// Whether a line is one that grep looks for.
    pub open spec fn selects(self, text: Seq<char>) -> bool {
        let t = if self.case_insensitive {
            lower(text)
        } else {
            text
        };
        self.invert != (if self.fixed_string {
            contains_sub(t, self.pattern@)
        } else {
            pattern_matches(t, self.pattern@)
        })
    }

    pub open spec fn has_context(self) -> bool {
        self.before_context > 0 || self.after_context > 0
    }

    /// What happens at a line that is looked for.
    pub open spec fn hit(self, name: Option<Seq<char>>, st: ScanState, text: Seq<char>) -> (
        ScanState,
        Seq<char>,
    ) {
        let num = st.num + 1;
        if self.quiet {
            (ScanState { num, count: st.count + 1, stopped: true, ..st }, Seq::empty())
        } else if self.files_only {
            (
                ScanState { num, count: st.count + 1, stopped: true, ..st },
                match name {
                    Some(f) => f + seq!['\n'],
                    None => Seq::empty(),
                },
            )
        } else if self.count_only {
            (ScanState { num, count: st.count + 1, ring: Seq::empty(), ..st }, Seq::empty())
        } else {
            let gap = if self.has_context() && st.any && st.last > 0 && num > st.last + 1 {
                "--\n"@
            } else {
                Seq::empty()
            };
            let (context, _) = context_before(name, self.line_numbers, st.ring, st.last, 0);
            (
                ScanState {
                    num,
                    ring: Seq::empty(),
                    after: self.after_context as nat,
                    last: num,
                    any: true,
                    count: st.count + 1,
                    stopped: false,
                },
                gap + context + printed(name, self.line_numbers, ':', num, text),
            )
        }
    }

    /// What happens at another line.
    pub open spec fn miss(self, name: Option<Seq<char>>, st: ScanState, text: Seq<char>) -> (
        ScanState,
        Seq<char>,
    ) {
        let num = st.num + 1;
        if self.count_only {
            (ScanState { num, ..st }, Seq::empty())
        } else if st.after > 0 {
            if num > st.last {
                (
                    ScanState { num, last: num, after: (st.after - 1) as nat, ..st },
                    printed(name, self.line_numbers, '-', num, text),
                )
            } else {
                (ScanState { num, after: (st.after - 1) as nat, ..st }, Seq::empty())
            }
        } else if self.before_context > 0 {
            let kept = if st.ring.len() >= self.before_context {
                st.ring.skip(1)
            } else {
                st.ring
            };
            (ScanState { num, ring: kept.push((num, text)), ..st }, Seq::empty())
        } else {
            (ScanState { num, ..st }, Seq::empty())
        }
    }

    /// What a line of input does.
    pub open spec fn line_step(self, name: Option<Seq<char>>, st: ScanState, line: Seq<u8>) -> (
        ScanState,
        Seq<char>,
    ) {
        if st.stopped {
            (st, Seq::empty())
        } else if self.selects(lossy(line)) {
            self.hit(name, st, lossy(line))
        } else {
            self.miss(name, st, lossy(line))
        }
    }

    pub open spec fn step(self, name: Option<Seq<char>>) -> spec_fn(ScanState, Seq<u8>) -> (
        ScanState,
        Seq<char>,
    ) {
        |st: ScanState, line: Seq<u8>| self.line_step(name, st, line)
    }

    fn is_selected(&self, text: &str) -> (r: bool)
        ensures
            r == self.selects(text@),
    {
        let t = if self.case_insensitive {
            let low = lowercase(text);
            to_chars(low.as_str())
        } else {
            to_chars(text)
        };
        let p = to_chars(self.pattern.as_str());
        let m = if self.fixed_string {
            contains_chars(&t, &p)
        } else {
            match_chars(&t, &p)
        };
        self.invert != m
    }
}

/// Where the search of one input stands.
#[derive(Debug)]
pub struct Scan {
    /// How many lines have been read.
    pub num: usize,
    /// The lines that are printed if the next line matches, with their numbers.
    pub ring: Vec<(usize, String)>,
    /// How many more lines are printed though they do not match.
    pub after: usize,
    /// The number of the line that was printed last.
    pub last: usize,
    /// Whether a matching line has been printed.
    pub any: bool,
    /// How many lines have matched.
    pub count: usize,
    /// Whether the rest of the input does not matter.
    pub stopped: bool,
    /// What waits for its newline.
    pub lines: LineBuffer,
}

pub open spec fn numbered(ring: Seq<(usize, String)>) -> Seq<(nat, Seq<char>)> {
    ring.map_values(|l: (usize, String)| (l.0 as nat, l.1@))
}

impl View for Scan {
    type V = ScanState;

    open spec fn view(&self) -> ScanState {
        ScanState {
            num: self.num as nat,
            ring: numbered(self.ring@),
            after: self.after as nat,
            last: self.last as nat,
            any: self.any,
            count: self.count as nat,
            stopped: self.stopped,
        }
    }
}

fn print_line(name: &Option<String>, numbers: bool, sep: char, num: usize, text: &str) -> (r: String)
    ensures
        r@ == printed(opt(name), numbers, sep, num as nat, text@),
{
    let mut r = String::new();
    match name {
        Some(f) => {
            r.append(f.as_str());
            r.push(sep);
            proof {
                assert(r@ =~= f@ + seq![sep]);
            }
        },
        None => {},
    }
    let ghost head = r@;
    if numbers {
        let ds = write_decimal(num as u64);
        push_chars(&mut r, &ds);
        r.push(sep);
        proof {
            assert(r@ =~= head + (decimal(num as nat) + seq![sep]));
        }
    } else {
        proof {
            assert(r@ =~= head + Seq::<char>::empty());
        }
    }
    let ghost lead = r@;
    r.append(text);
    r.push('\n');
    proof {
        assert(r@ =~= lead + text@ + seq!['\n']);
    }
    r
}

pub open spec fn opt(name: &Option<String>) -> Option<Seq<char>> {
    match name {
        Some(s) => Some(s@),
        None => None,
    }
}

impl Scan {
    /// What waits for its newline.
    pub open spec fn pending(&self) -> Seq<u8> {
        self.lines@
    }

    /// No more lines have matched, and no line behind the last one has been printed,
    /// than have been read.
    pub open spec fn wf(&self) -> bool {
        self@.count <= self@.num && self@.last <= self@.num
    }

    /// The search before the first line.
    pub fn new() -> (r: Self)
        ensures
            r@ == (ScanState {
                num: 0,
                ring: Seq::empty(),
                after: 0,
                last: 0,
                any: false,
                count: 0,
                stopped: false,
            }),
            r.pending() == Seq::<u8>::empty(),
            r.wf(),
    {
        let r = Scan {
            num: 0,
            ring: Vec::new(),
            after: 0,
            last: 0,
            any: false,
            count: 0,
            stopped: false,
            lines: LineBuffer::new(),
        };
        proof {
            assert(numbered(r.ring@) =~= Seq::<(nat, Seq<char>)>::empty());
        }
        r
    }

    fn hit_line(&mut self, opts: &GrepOptions, name: &Option<String>, text: &str, out: &mut String)
        requires
            old(self)@.num < usize::MAX,
            old(self).wf(),
            !old(self)@.stopped,
        ensures
            final(self).pending() == old(self).pending(),
            ({
                let (st, text) = opts.hit(opt(name), old(self)@, text@);
                final(self)@ == st && final(out)@ == old(out)@ + text
            }),
    {
        let ghost before = self@;
        let ghost start = out@;
        self.num = self.num + 1;
        self.count = self.count + 1;
        if opts.quiet {
            self.stopped = true;
            proof {
                assert(start + Seq::<char>::empty() =~= start);
            }
            return ;
        }
        if opts.files_only {
            self.stopped = true;
            match name {
                Some(f) => {
                    out.append(f.as_str());
                    out.push('\n');
                    proof {
                        assert(out@ =~= start + (f@ + seq!['\n']));
                    }
                },
                None => {
                    proof {
                        assert(start + Seq::<char>::empty() =~= start);
                    }
                },
            }
            return ;
        }
        if !opts.count_only {
            if (opts.before_context > 0 || opts.after_context > 0) && self.any && self.last > 0
                && self.num - 1 > self.last {
                out.append("--\n");
            } else {
                proof {
                    assert(start + Seq::<char>::empty() =~= start);
                }
            }
            let ghost gap = out@;
            let ghost ring = numbered(self.ring@);
            let ghost whole = context_before(opt(name), opts.line_numbers, ring, before.last, 0).0;
            let mut last = self.last;
            let mut i: usize = 0;
            proof {
                assert(gap + whole =~= out@ + whole);
            }
            while i < self.ring.len()
                invariant
                    ring == numbered(self.ring@),
                    i <= self.ring@.len(),
                    out@ + context_before(
                        opt(name),
                        opts.line_numbers,
                        ring,
                        last as nat,
                        i as int,
                    ).0 == gap + whole,
                decreases self.ring@.len() - i,
            {
                let ghost now = out@;
                let ghost was = last as nat;
                proof {
                    assert(ring[i as int] == (self.ring@[i as int].0 as nat, self.ring@[i as int].1@));
                }
                if self.ring[i].0 > last {
                    let line = print_line(
                        name,
                        opts.line_numbers,
                        '-',
                        self.ring[i].0,
                        self.ring[i].1.as_str(),
                    );
                    out.append(line.as_str());
                    last = self.ring[i].0;
                    proof {
                        let rest = context_before(
                            opt(name),
                            opts.line_numbers,
                            ring,
                            last as nat,
                            i + 1,
                        ).0;
                        assert(now + line@ + rest =~= now + (line@ + rest));
                    }
                }
                i += 1;
            }
            proof {
                assert(out@ + Seq::<char>::empty() =~= out@);
            }
            let line = print_line(name, opts.line_numbers, ':', self.num, text);
            out.append(line.as_str());
            self.last = self.num;
            self.any = true;
            self.after = opts.after_context;
            proof {
                let sep = if opts.has_context() && before.any && before.last > 0 && before.num + 1
                    > before.last + 1 {
                    "--\n"@
                } else {
                    Seq::empty()
                };
                assert(out@ =~= start + (sep + whole + line@));
            }
        } else {
            proof {
                assert(start + Seq::<char>::empty() =~= start);
            }
        }
        self.ring = Vec::new();
        proof {
            assert(numbered(self.ring@) =~= Seq::<(nat, Seq<char>)>::empty());
        }
    }

    fn miss_line(&mut self, opts: &GrepOptions, name: &Option<String>, text: String, out: &mut String)
        requires
            old(self)@.num < usize::MAX,
            !old(self)@.stopped,
        ensures
            final(self).pending() == old(self).pending(),
            ({
                let (st, text) = opts.miss(opt(name), old(self)@, text@);
                final(self)@ == st && final(out)@ == old(out)@ + text
            }),
    {
        let ghost start = out@;
        let ghost before = self@;
        let ghost old_ring = self.ring@;
        self.num = self.num + 1;
        proof {
            assert(start + Seq::<char>::empty() =~= start);
        }
        if !opts.count_only {
            if self.after > 0 {
                if self.num > self.last {
                    let line = print_line(name, opts.line_numbers, '-', self.num, text.as_str());
                    out.append(line.as_str());
                    self.last = self.num;
                }
                self.after = self.after - 1;
            } else if opts.before_context > 0 {
                if self.ring.len() >= opts.before_context {
                    self.ring.remove(0);
                    proof {
                        assert(numbered(self.ring@) =~= before.ring.skip(1));
                    }
                }
                let ghost kept = self.ring@;
                let line = (self.num, text);
                self.ring.push(line);
                proof {
                    assert(numbered(self.ring@) =~= numbered(kept).push((self.num as nat, text@)));
                }
            }
        }
    }

    fn line(&mut self, opts: &GrepOptions, name: &Option<String>, bytes: &Vec<u8>, out: &mut String)
        requires
            old(self)@.num < usize::MAX,
            old(self).wf(),
        ensures
            final(self).pending() == old(self).pending(),
            ({
                let (st, text) = opts.line_step(opt(name), old(self)@, bytes@);
                final(self)@ == st && final(out)@ == old(out)@ + text
            }),
            final(self)@.num <= old(self)@.num + 1,
            final(self).wf(),
    {
        if self.stopped {
            proof {
                assert(out@ + Seq::<char>::empty() =~= out@);
            }
            return ;
        }
        let text = read_lossy(bytes);
        if opts.is_selected(text.as_str()) {
            self.hit_line(opts, name, text.as_str(), out);
        } else {
            self.miss_line(opts, name, text, out);
        }
    }

    /// Searches a chunk of input and gives what is printed.
    pub fn feed(&mut self, opts: &GrepOptions, name: &Option<String>, chunk: &[u8]) -> (r: String)
        requires
            old(self)@.num + old(self).pending().len() + chunk@.len() < usize::MAX,
            old(self).wf(),
        ensures
            (final(self).pending(), final(self)@, r@) == fed(
                old(self).pending(),
                old(self)@,
                opts.step(opt(name)),
                chunk@,
            ),
            final(self)@.num + final(self).pending().len()
                <= old(self)@.num + old(self).pending().len() + chunk@.len(),
            final(self).wf(),
    {
        let ghost step = opts.step(opt(name));
        let ghost st0 = self@;
        let ghost input = self.lines@ + chunk@;
        let lines = self.lines.feed(chunk);
        let ghost all = rows(lines@);
        proof {
            crate::lines::lemma_fewer_lines(input);
        }
        let mut out = String::new();
        let mut i: usize = 0;
        let ghost whole = filtered(st0, step, all, 0);
        proof {
            assert(self@ == st0);
            assert(out@ + whole.1 =~= whole.1);
        }
        let ghost waiting = self.pending();
        while i < lines.len()
            invariant
                self.pending() == waiting,
                step == opts.step(opt(name)),
                all == rows(lines@),
                i <= lines@.len(),
                st0.num + lines@.len() < usize::MAX,
                self@.num <= st0.num + i,
                self.wf(),
                filtered(self@, step, all, i as int).0 == whole.0,
                out@ + filtered(self@, step, all, i as int).1 == whole.1,
            decreases lines@.len() - i,
        {
            let ghost before = self@;
            let ghost now = out@;
            self.line(opts, name, &lines[i], &mut out);
            proof {
                let (mid, text) = opts.line_step(opt(name), before, lines@[i as int]@);
                assert(all[i as int] == lines@[i as int]@);
                assert(step(before, all[i as int]) == (mid, text));
                let rest = filtered(mid, step, all, i + 1).1;
                assert(now + text + rest =~= now + (text + rest));
            }
            i += 1;
        }
        proof {
            assert(out@ + Seq::<char>::empty() =~= out@);
        }
        out
    }

    /// Searches what is left when the input ends.
    pub fn end(&mut self, opts: &GrepOptions, name: &Option<String>) -> (r: String)
        requires
            old(self)@.num < usize::MAX,
            old(self).wf(),
        ensures
            (final(self)@, r@) == (if old(self).pending().len() == 0 {
                (old(self)@, Seq::empty())
            } else {
                opts.line_step(opt(name), old(self)@, old(self).pending())
            }),
            final(self).pending().len() == 0,
            final(self).wf(),
    {
        let mut out = String::new();
        if !self.lines.is_empty() {
            let ghost before = self@;
            let last = self.lines.take();
            proof {
                assert(self@ == before);
            }
            self.line(opts, name, &last, &mut out);
            proof {
                assert(out@ =~= opts.line_step(opt(name), before, last@).1);
            }
        }
        out
    }

    /// Tests whether the rest of the input does not matter.
    pub fn is_stopped(&self) -> (r: bool)
        ensures
            r == self@.stopped,
    {
        self.stopped
    }

    /// How many lines have matched.
    pub fn matches(&self) -> (r: usize)
        ensures
            r == self@.count,
    {
        self.count
    }
}

// ---------------------------------------------------------------------------
// The command
// ---------------------------------------------------------------------------

/// The pattern and the files among the first `n` tokens: the pattern is the value
/// of `-e`, or the first argument where none came before it.
pub open spec fn pattern_and_files(ts: Seq<Tok>, n: int) -> (Option<Seq<char>>, Seq<Seq<char>>)
    decreases n,
{
    if n <= 0 {
        (None, Seq::empty())
    } else {
        let (pattern, files) = pattern_and_files(ts, n - 1);
        match ts[n - 1] {
            Tok::Valued('e', Some(v)) => (Some(v), files),
            Tok::Value(s) => if pattern is None {
                (Some(s), files)
            } else {
                (pattern, files.push(s))
            },
            _ => (pattern, files),
        }
    }
}

/// The number that the last of some options gives; zero where it gives none.
pub open spec fn context_size(ts: Seq<Tok>, cs: Seq<char>) -> nat {
    match last_valued(ts, cs, ts.len() as int) {
        Some(v) => match read_usize(v) {
            Some(n) => n,
            None => 0,
        },
        None => 0,
    }
}

/// What grep finds in its arguments.
pub open spec fn grep_tokens(argv: Seq<Seq<char>>) -> Seq<Tok> {
    arg_tokens(argv, seq!['A', 'B', 'C', 'e'], false)
}

impl GrepOptions {
    /// Whether these are the options that the tokens and the pattern give.
    pub open spec fn follows(self, ts: Seq<Tok>, pattern: Seq<char>) -> bool {
        &&& self.case_insensitive == ts.contains(Tok::Short('i'))
        &&& self.invert == ts.contains(Tok::Short('v'))
        &&& self.line_numbers == ts.contains(Tok::Short('n'))
        &&& self.count_only == ts.contains(Tok::Short('c'))
        &&& self.files_only == ts.contains(Tok::Short('l'))
        &&& self.quiet == ts.contains(Tok::Short('q'))
        &&& self.fixed_string == ts.contains(Tok::Short('F'))
        &&& self.before_context == context_size(ts, seq!['B', 'C'])
        &&& self.after_context == context_size(ts, seq!['A', 'C'])
        &&& self.pattern@ == if self.case_insensitive {
            lower(pattern)
        } else {
            pattern
        }
    }
}

fn read_context(ts: &Vec<ArgToken>, a: char, b: char) -> (r: usize)
    ensures
        r == context_size(toks(ts@), seq![a, b]),
{
    let mut cs: Vec<char> = Vec::new();
    cs.push(a);
    cs.push(b);
    proof {
        assert(cs@ =~= seq![a, b]);
        assert(toks(ts@).len() == ts@.len());
    }
    match last_value(ts, &cs) {
        Some(v) => {
            let d = to_chars(v.as_str());
            match parse_usize(&d) {
                Some(n) => n,
                None => 0,
            }
        },
        None => 0,
    }
}

/// A running grep.
pub struct Grep {
    /// What was asked for.
    pub opts: GrepOptions,
    /// The files to search; stdin where there are none.
    pub files: Strings,
    /// Whether a line has been found in an input that ended.
    pub found: bool,
    /// Where the search of the current input stands.
    pub scan: Scan,
}

/// The count that is printed behind an input.
pub open spec fn count_line(
    opts: GrepOptions,
    name: Option<Seq<char>>,
    count: nat,
) -> Seq<char> {
    if opts.count_only && !opts.quiet {
        (match name {
            Some(f) => f + seq![':'],
            None => Seq::empty(),
        }) + decimal(count) + seq!['\n']
    } else {
        Seq::empty()
    }
}

/// Starts grep.
pub fn run(argv: &Vec<String>) -> (r: Start<Grep>)
    ensures
        ({
            let ts = grep_tokens(strs(argv@));
            let (pattern, files) = pattern_and_files(ts, ts.len() as int);
            match (pattern, r) {
                (None, Start::Done(said)) => said.says(
                    Seq::empty(),
                    "grep: missing pattern"@ + seq!['\n'],
                    2,
                ),
                (Some(p), Start::Go(g)) => g.opts.follows(ts, p) && strings_of(g.files) == files
                    && g.wf()
                    && !g.found && g.scan@ == start_state() && g.scan.pending().len() == 0,
                _ => false,
            }
        }),
{
    let mut valued: Vec<char> = Vec::new();
    valued.push('A');
    valued.push('B');
    valued.push('C');
    valued.push('e');
    proof {
        assert(valued@ =~= seq!['A', 'B', 'C', 'e']);
    }
    let ts = lex_args(argv, &valued, false);
    let ghost all = toks(ts@);
    let mut pattern: Option<String> = None;
    let mut files = Strings::new();
    let mut i: usize = 0;
    while i < ts.len()
        invariant
            all == toks(ts@),
            i <= ts@.len(),
            (opt(&pattern), strings_of(files)) == pattern_and_files(all, i as int),
        decreases ts@.len() - i,
    {
        proof {
            assert(all[i as int] == ts@[i as int]@);
        }
        match &ts[i] {
            ArgToken::Valued(c, Some(v)) => {
                if *c == 'e' {
                    pattern = Some(v.clone());
                }
            },
            ArgToken::Value(s) => {
                if pattern.is_none() {
                    pattern = Some(s.clone());
                } else {
                    files.push(s.clone());
                }
            },
            _ => {},
        }
        i += 1;
    }
    proof {
        assert(all.len() == ts@.len());
    }
    let p = match pattern {
        Some(p) => p,
        None => {
            return Start::Done(Said::complaint("grep: missing pattern", 2));
        },
    };
    let case_insensitive = has_short(&ts, 'i');
    let pattern = if case_insensitive {
        lowercase(p.as_str())
    } else {
        p
    };
    let opts = GrepOptions {
        case_insensitive,
        invert: has_short(&ts, 'v'),
        line_numbers: has_short(&ts, 'n'),
        count_only: has_short(&ts, 'c'),
        files_only: has_short(&ts, 'l'),
        quiet: has_short(&ts, 'q'),
        fixed_string: has_short(&ts, 'F'),
        before_context: read_context(&ts, 'B', 'C'),
        after_context: read_context(&ts, 'A', 'C'),
        pattern,
    };
    Start::Go(Grep { opts, files, found: false, scan: Scan::new() })
}

/// The search before the first line.
pub open spec fn start_state() -> ScanState {
    ScanState {
        num: 0,
        ring: Seq::empty(),
        after: 0,
        last: 0,
        any: false,
        count: 0,
        stopped: false,
    }
}

impl Grep {
    pub open spec fn wf(self) -> bool {
        self.scan.wf()
    }

    /// The name that is printed before the lines of input `i`: none unless there
    /// are several files.
    pub open spec fn shown(self, i: int) -> Option<Seq<char>> {
        if strings_of(self.files).len() > 1 && 0 <= i < strings_of(self.files).len() {
            Some(strings_of(self.files)[i])
        } else {
            None
        }
    }

    fn name(&self, i: usize) -> (r: Option<String>)
        ensures
            opt(&r) == self.shown(i as int),
    {
        if self.files.len() > 1 && i < self.files.len() {
            Some(self.files.at(i).to_owned())
        } else {
            None
        }
    }

    /// Searches a chunk of input `i` and gives what is printed.
    pub fn feed(&mut self, i: usize, chunk: &[u8]) -> (r: String)
        requires
            old(self).wf(),
            old(self).scan@.num + old(self).scan.pending().len() + chunk@.len() < usize::MAX,
        ensures
            final(self).wf(),
            final(self).opts == old(self).opts,
            final(self).files == old(self).files,
            final(self).found == old(self).found,
            (final(self).scan.pending(), final(self).scan@, r@) == fed(
                old(self).scan.pending(),
                old(self).scan@,
                old(self).opts.step(old(self).shown(i as int)),
                chunk@,
            ),
            final(self).scan@.num + final(self).scan.pending().len() <= old(self).scan@.num + old(
                self,
            ).scan.pending().len() + chunk@.len(),
    {
        let name = self.name(i);
        self.scan.feed(&self.opts, &name, chunk)
    }

    /// Tests whether the rest of the current input does not matter.
    pub fn is_stopped(&self) -> (r: bool)
        ensures
            r == self.scan@.stopped,
    {
        self.scan.is_stopped()
    }

    /// Ends input `i`, gives what is printed, and is ready for the next input.
    pub fn end(&mut self, i: usize) -> (r: String)
        requires
            old(self).wf(),
            old(self).scan@.num < usize::MAX,
        ensures
            final(self).wf(),
            final(self).opts == old(self).opts,
            final(self).files == old(self).files,
            final(self).scan@ == start_state(),
            final(self).scan.pending().len() == 0,
            ({
                let name = old(self).shown(i as int);
                let (st, text) = if old(self).scan.pending().len() == 0 {
                    (old(self).scan@, Seq::empty())
                } else {
                    old(self).opts.line_step(name, old(self).scan@, old(self).scan.pending())
                };
                &&& r@ == text + count_line(old(self).opts, name, st.count)
                &&& final(self).found == (old(self).found || st.count > 0)
            }),
    {
        let name = self.name(i);
        let mut r = self.scan.end(&self.opts, &name);
        let ghost text = r@;
        let n = self.scan.matches();
        if n > 0 {
            self.found = true;
        }
        if self.opts.count_only && !self.opts.quiet {
            match &name {
                Some(f) => {
                    r.append(f.as_str());
                    r.push(':');
                },
                None => {},
            }
            let ds = write_decimal(n as u64);
            push_chars(&mut r, &ds);
            r.push('\n');
        }
        proof {
            assert(r@ =~= text + count_line(self.opts, opt(&name), n as nat));
        }
        self.scan = Scan::new();
        r
    }

    /// Tests whether nothing more has to be searched: a quiet grep ends with the
    /// first input that holds a line it looks for.
    pub fn is_over(&self) -> (r: bool)
        ensures
            r == (self.opts.quiet && self.found),
    {
        self.opts.quiet && self.found
    }

    /// The complaint about a file that cannot be opened. The search goes on with the
    /// next file.
    pub fn refused(&self, path: &str, e: &IoError) -> (r: String)
        ensures
            r@ == refusal("grep"@, path@, e.spec_message()),
    {
        refusal_line("grep", path, e)
    }

    /// The exit code.
    pub fn code(&self) -> (r: i32)
        ensures
            r == if self.found {
                0
            } else {
                1int
            },
    {
        if self.found {
            0
        } else {
            1
        }
    }
}

/// How many lines from `i` on are looked for.
pub open spec fn selected_from(o: GrepOptions, lines: Seq<Seq<u8>>, i: int) -> nat
    decreases lines.len() - i,
{
    if i < 0 || i >= lines.len() {
        0
    } else {
        (if o.selects(lossy(lines[i])) {
            1nat
        } else {
            0
        }) + selected_from(o, lines, i + 1)
    }
}

/// Where grep does not stop at the first match, it counts all lines that are looked
/// for.
pub proof fn law_all_matches_count(
    o: GrepOptions,
    name: Option<Seq<char>>,
    st: ScanState,
    lines: Seq<Seq<u8>>,
    i: int,
)
    requires
        !o.quiet,
        !o.files_only,
        !st.stopped,
        0 <= i <= lines.len(),
    ensures
        filtered(st, o.step(name), lines, i).0.count == st.count + selected_from(o, lines, i),
    decreases lines.len() - i,
{
    if i < lines.len() {
        let (mid, text) = o.line_step(name, st, lines[i]);
        assert(o.step(name)(st, lines[i]) == (mid, text));
        law_all_matches_count(o, name, mid, lines, i + 1);
    }
}

/// With `-v`, grep looks for the lines that it does not look for without it: the two
/// counts make up all lines.
pub proof fn law_inverted_takes_the_rest(
    o: GrepOptions,
    inverted: GrepOptions,
    lines: Seq<Seq<u8>>,
    i: int,
)
    requires
        inverted == (GrepOptions { invert: !o.invert, ..o }),
        0 <= i <= lines.len(),
    ensures
        selected_from(o, lines, i) + selected_from(inverted, lines, i) == lines.len() - i,
    decreases lines.len() - i,
{
    if i < lines.len() {
        law_inverted_takes_the_rest(o, inverted, lines, i + 1);
    }
}

/// Whether a text stands in another at a place: an empty one stands everywhere.
pub open spec fn stands_at(text: Seq<char>, q: Seq<char>, at: int) -> bool {
    &&& 0 <= at && at + q.len() <= text.len()
    &&& forall|k: int| 0 <= k < q.len() ==> text[at + k] == #[trigger] q[k]
}

/// Whether pieces stand in a text at some places, each behind the end of those before it.
pub open spec fn stand_in_order(text: Seq<char>, parts: Seq<Seq<char>>, at: Seq<int>) -> bool {
    &&& at.len() == parts.len()
    &&& forall|k: int| 0 <= k < parts.len() ==> stands_at(text, #[trigger] parts[k], at[k])
    &&& forall|j: int, k: int|
        0 <= j < k < parts.len() ==> #[trigger] at[j] + parts[j].len() <= #[trigger] at[k]
}

proof fn lemma_stands(text: Seq<char>, q: Seq<char>, at: int)
    ensures
        stands_at(text, q, at) == occurs_at(text, q, at),
{
    if stands_at(text, q, at) {
        assert(text.subrange(at, at + q.len()) =~= q) by {
            assert forall|k: int| 0 <= k < q.len() implies text.subrange(at, at + q.len())[k]
                == q[k] by {
                assert(text[at + k] == q[k]);
            }
        }
    }
    if occurs_at(text, q, at) {
        assert forall|k: int| 0 <= k < q.len() implies text[at + k] == #[trigger] q[k] by {
            assert(text.subrange(at, at + q.len())[k] == q[k]);
        }
    }
}

proof fn lemma_places_found(text: Seq<char>, parts: Seq<Seq<char>>, i: int, from: int) -> (at: Seq<
    int,
>)
    requires
        0 <= i <= parts.len(),
        0 <= from <= text.len(),
        occur_in_order(text, parts, i, from),
    ensures
        at.len() == parts.len(),
        forall|k: int|
            i <= k < parts.len() ==> stands_at(text, #[trigger] parts[k], at[k]) && from <= at[k],
        forall|j: int, k: int|
            i <= j < k < parts.len() ==> #[trigger] at[j] + parts[j].len() <= #[trigger] at[k],
    decreases parts.len() - i,
{
    if i == parts.len() {
        Seq::new(parts.len(), |k: int| from)
    } else {
        let place = if parts[i].len() == 0 {
            from
        } else {
            lemma_find_sub(text, parts[i], from);
            find_sub_from(text, parts[i], from).unwrap()
        };
        lemma_stands(text, parts[i], place);
        let rest = lemma_places_found(text, parts, i + 1, place + parts[i].len());
        let at = rest.update(i, place);
        assert forall|k: int| i <= k < parts.len() implies stands_at(
            text,
            #[trigger] parts[k],
            at[k],
        ) && from <= at[k] by {
            if k > i {
                assert(stands_at(text, parts[k], rest[k]));
            }
        }
        assert forall|j: int, k: int| i <= j < k < parts.len() implies #[trigger] at[j]
            + parts[j].len() <= #[trigger] at[k] by {
            assert(stands_at(text, parts[k], rest[k]) && place + parts[i].len() <= rest[k]);
            if j > i {
                assert(rest[j] + parts[j].len() <= rest[k]);
            }
        }
        at
    }
}

proof fn lemma_places_do(
    text: Seq<char>,
    parts: Seq<Seq<char>>,
    at: Seq<int>,
    i: int,
    from: int,
)
    requires
        stand_in_order(text, parts, at),
        0 <= i <= parts.len(),
        0 <= from,
        i < parts.len() ==> from <= at[i],
    ensures
        occur_in_order(text, parts, i, from),
    decreases parts.len() - i,
{
    if i < parts.len() {
        assert(stands_at(text, parts[i], at[i]));
        if i + 1 < parts.len() {
            assert(at[i] + parts[i].len() <= at[i + 1]);
        }
        if parts[i].len() == 0 {
            lemma_places_do(text, parts, at, i + 1, from);
        } else {
            lemma_stands(text, parts[i], at[i]);
            lemma_find_sub(text, parts[i], from);
            let j = find_sub_from(text, parts[i], from).unwrap();
            lemma_places_do(text, parts, at, i + 1, j + parts[i].len());
        }
    }
}

/// Whether `.*` stands nowhere in any of the pieces.
pub open spec fn without_stars(parts: Seq<Seq<char>>) -> bool {
    forall|i: int, k: int|
        0 <= i < parts.len() && 0 <= k < parts[i].len() - 1 && #[trigger] parts[i][k] == '.'
            ==> parts[i][k + 1] != '*'
}

proof fn lemma_star_parts(p: Seq<char>, parts: Seq<Seq<char>>, i: int, from: int)
    requires
        without_stars(parts),
        0 <= i < parts.len(),
        0 <= from <= p.len(),
        p.skip(from) == join_from(parts, seq!['.', '*'], i),
    ensures
        star_parts(p, from) == parts.skip(i),
        i + 1 < parts.len() ==> contains_sub(p, seq!['.', '*']),
        i + 1 == parts.len() ==> find_sub_from(p, seq!['.', '*'], from) is None,
    decreases parts.len() - i,
{
    let star = seq!['.', '*'];
    let n = parts[i].len() as int;
    let rest = p.skip(from);
    lemma_find_sub(p, star, from);
    if i + 1 == parts.len() {
        assert forall|k: int| from <= k implies !occurs_at(p, star, k) by {
            if occurs_at(p, star, k) {
                assert(p.subrange(k, k + 2)[0] == '.' && p.subrange(k, k + 2)[1] == '*');
                assert(rest[k - from] == p[k] && rest[k - from + 1] == p[k + 1]);
                assert(parts[i][k - from] == '.');
            }
        }
        assert(star_parts(p, from) =~= parts.skip(i));
    } else {
        let tail = join_from(parts, star, i + 1);
        assert(rest == parts[i] + star + tail);
        let j = from + n;
        assert(p.len() >= j + 2);
        assert(p[j] == rest[n] && p[j + 1] == rest[n + 1]);
        assert(p.subrange(j, j + 2) =~= star);
        assert(occurs_at(p, star, j));
        assert forall|k: int| from <= k < j implies !occurs_at(p, star, k) by {
            if occurs_at(p, star, k) {
                assert(p.subrange(k, k + 2)[0] == '.' && p.subrange(k, k + 2)[1] == '*');
                assert(rest[k - from] == p[k] && rest[k - from + 1] == p[k + 1]);
                assert(parts[i][k - from] == '.');
                assert(k + 1 == j);
            }
        }
        assert(find_sub_from(p, star, from) == Some(j));
        assert(p.subrange(from, j) =~= parts[i]) by {
            assert forall|k: int| 0 <= k < n implies p.subrange(from, j)[k] == parts[i][k] by {
                assert(rest[k] == parts[i][k]);
            }
        }
        assert(p.skip(j + 2) =~= tail) by {
            assert forall|k: int| 0 <= k < tail.len() implies p.skip(j + 2)[k] == tail[k] by {
                assert(rest[n + 2 + k] == tail[k]);
            }
        }
        lemma_star_parts(p, parts, i + 1, j + 2);
        assert(star_parts(p, from) =~= parts.skip(i));
    }
}

/// A pattern that neither `^` starts nor `$` ends matches the texts in which the pieces
/// between its `.*` stand one behind the other.
pub proof fn law_pieces_stand_in_order(text: Seq<char>, parts: Seq<Seq<char>>, p: Seq<char>)
    requires
        parts.len() > 0,
        without_stars(parts),
        p == join(parts, seq!['.', '*']),
        p.len() > 0 ==> p[0] != '^' && p.last() != '$',
    ensures
        pattern_matches(text, p) == (exists|at: Seq<int>| stand_in_order(text, parts, at)),
{
    let star = seq!['.', '*'];
    assert(p.skip(0) =~= p);
    lemma_star_parts(p, parts, 0, 0);
    assert(parts.skip(0) =~= parts);
    if parts.len() == 1 {
        lemma_find_sub(p, star, 0);
        assert(!contains_sub(p, star));
        assert(p == parts[0]);
        if contains_sub(text, p) {
            let k = choose|k: int| occurs_at(text, p, k);
            lemma_stands(text, p, k);
            assert(stand_in_order(text, parts, seq![k]));
        }
        if exists|at: Seq<int>| stand_in_order(text, parts, at) {
            let at = choose|at: Seq<int>| stand_in_order(text, parts, at);
            assert(stands_at(text, parts[0], at[0]));
            lemma_stands(text, p, at[0]);
        }
    } else {
        if pattern_matches(text, p) {
            let at = lemma_places_found(text, parts, 0, 0);
            assert(stand_in_order(text, parts, at));
        }
        if exists|at: Seq<int>| stand_in_order(text, parts, at) {
            let at = choose|at: Seq<int>| stand_in_order(text, parts, at);
            assert(stands_at(text, parts[0], at[0]));
            lemma_places_do(text, parts, at, 0, 0);
        }
    }
}

/// Whether a text is a pattern that stands for itself.
pub open spec fn is_literal(a: Seq<char>) -> bool {
    &&& a.len() > 0 && a[0] != '^' && a.last() != '$'
    &&& forall|k: int| 0 <= k < a.len() - 1 && #[trigger] a[k] == '.' ==> a[k + 1] != '*'
}

/// A pattern that stands for itself matches the texts that hold it, and `.*` behind it or
/// before it changes nothing.
pub proof fn law_literal_is_looked_for(text: Seq<char>, a: Seq<char>)
    requires
        is_literal(a),
    ensures
        pattern_matches(text, a) == (exists|k: int| stands_at(text, a, k)),
        pattern_matches(text, a + seq!['.', '*']) == (exists|k: int| stands_at(text, a, k)),
        pattern_matches(text, seq!['.', '*'] + a) == (exists|k: int| stands_at(text, a, k)),
{
    let star = seq!['.', '*'];
    let none = Seq::<char>::empty();
    let alone = seq![a];
    let first = seq![a, none];
    let last = seq![none, a];
    reveal_with_fuel(join_from, 3);
    assert(join(alone, star) =~= a);
    assert(join(first, star) =~= a + star);
    assert(join(last, star) =~= star + a);
    law_pieces_stand_in_order(text, alone, a);
    law_pieces_stand_in_order(text, first, a + star);
    law_pieces_stand_in_order(text, last, star + a);
    if exists|k: int| stands_at(text, a, k) {
        let k = choose|k: int| stands_at(text, a, k);
        assert(stand_in_order(text, alone, seq![k]));
        assert(stand_in_order(text, first, seq![k, k + a.len()]));
        assert(stand_in_order(text, last, seq![0int, k]));
    }
    if exists|at: Seq<int>| stand_in_order(text, alone, at) {
        let at = choose|at: Seq<int>| stand_in_order(text, alone, at);
        assert(stands_at(text, alone[0], at[0]));
    }
    if exists|at: Seq<int>| stand_in_order(text, first, at) {
        let at = choose|at: Seq<int>| stand_in_order(text, first, at);
        assert(stands_at(text, first[0], at[0]));
    }
    if exists|at: Seq<int>| stand_in_order(text, last, at) {
        let at = choose|at: Seq<int>| stand_in_order(text, last, at);
        assert(stands_at(text, last[1], at[1]));
    }
}

/// A pattern behind `^` matches the texts that it starts, before `$` those that it ends,
/// and between the two the text that it is.
pub proof fn law_anchors_bind(text: Seq<char>, a: Seq<char>, b: Seq<char>)
    requires
        a.len() > 0 ==> a.last() != '$',
        b.len() > 0 ==> b[0] != '^',
    ensures
        pattern_matches(text, seq!['^'] + a) == stands_at(text, a, 0),
        pattern_matches(text, b + seq!['$']) == stands_at(text, b, text.len() - b.len()),
        pattern_matches(text, seq!['^'] + b + seq!['$']) == (text == b),
{
    let p = seq!['^'] + a;
    assert(p.skip(1) =~= a);
    assert(p.last() == if a.len() > 0 {
        a.last()
    } else {
        '^'
    });
    lemma_stands(text, a, 0);
    assert(a.len() <= text.len() ==> text.take(a.len() as int) =~= text.subrange(
        0,
        0 + a.len() as int,
    ));
    let q = b + seq!['$'];
    assert(q.last() == '$');
    assert(q.take(q.len() - 1) =~= b);
    lemma_stands(text, b, text.len() - b.len());
    assert(b.len() <= text.len() ==> text.skip(text.len() - b.len()) =~= text.subrange(
        text.len() - b.len(),
        text.len() as int,
    ));
    let r = seq!['^'] + b + seq!['$'];
    assert(r.last() == '$');
    assert(r.subrange(1, r.len() - 1) =~= b);
}

/// With `-F` a line is looked for where it holds the pattern as it is written, and `-v`
/// turns the choice round.
pub proof fn law_fixed_pattern_stands_for_itself(o: GrepOptions, text: Seq<char>)
    requires
        o.fixed_string,
        !o.case_insensitive,
    ensures
        o.selects(text) == (o.invert != exists|k: int| stands_at(text, o.pattern@, k)),
{
    if exists|k: int| stands_at(text, o.pattern@, k) {
        let k = choose|k: int| stands_at(text, o.pattern@, k);
        lemma_stands(text, o.pattern@, k);
        assert(contains_sub(text, o.pattern@));
    }
    if contains_sub(text, o.pattern@) {
        let k = choose|k: int| occurs_at(text, o.pattern@, k);
        lemma_stands(text, o.pattern@, k);
    }
}

/// With `-i` a line is looked for like the same line in lower case.
pub proof fn law_case_does_not_matter(o: GrepOptions, a: Seq<char>, b: Seq<char>)
    requires
        o.case_insensitive,
        lower(a) == lower(b),
    ensures
        o.selects(a) == o.selects(b),
        o.selects(a) == (GrepOptions { case_insensitive: false, ..o }).selects(lower(a)),
{
}

/// A line is printed behind the name of its file and its number, where they are printed,
/// and its end.
pub proof fn law_printed_line(f: Seq<char>, sep: char, num: nat, text: Seq<char>)
    ensures
        printed(None, false, sep, num, text) == text + seq!['\n'],
        printed(None, true, sep, num, text) == decimal(num) + seq![sep] + text + seq!['\n'],
        printed(Some(f), false, sep, num, text) == f + seq![sep] + text + seq!['\n'],
        printed(Some(f), true, sep, num, text) == f + seq![sep] + decimal(num) + seq![sep] + text
            + seq!['\n'],
{
    assert(printed(None, false, sep, num, text) =~= text + seq!['\n']);
    assert(printed(None, true, sep, num, text) =~= decimal(num) + seq![sep] + text + seq!['\n']);
    assert(printed(Some(f), false, sep, num, text) =~= f + seq![sep] + text + seq!['\n']);
    assert(printed(Some(f), true, sep, num, text) =~= f + seq![sep] + decimal(num) + seq![sep]
        + text + seq!['\n']);
}

/// Lines from place `from` to before place `to`, as they are printed.
pub open spec fn printed_lines(
    name: Option<Seq<char>>,
    numbers: bool,
    sep: char,
    lines: Seq<Seq<u8>>,
    from: int,
    to: int,
) -> Seq<char>
    decreases to - from,
{
    if from >= to {
        Seq::empty()
    } else {
        printed(name, numbers, sep, (from + 1) as nat, lossy(lines[from])) + printed_lines(
            name,
            numbers,
            sep,
            lines,
            from + 1,
            to,
        )
    }
}

/// The lines from place `i` on that are looked for, as they are printed.
pub open spec fn selected_lines(
    o: GrepOptions,
    name: Option<Seq<char>>,
    lines: Seq<Seq<u8>>,
    i: int,
) -> Seq<char>
    decreases lines.len() - i,
{
    if i < 0 || i >= lines.len() {
        Seq::empty()
    } else {
        (if o.selects(lossy(lines[i])) {
            printed(name, o.line_numbers, ':', (i + 1) as nat, lossy(lines[i]))
        } else {
            Seq::empty()
        }) + selected_lines(o, name, lines, i + 1)
    }
}

/// Whether grep prints lines, and not counts or names.
pub open spec fn prints_lines(o: GrepOptions) -> bool {
    !o.quiet && !o.files_only && !o.count_only
}

/// Without context, grep prints the lines that it looks for, each with its own number, and
/// nothing else.
pub proof fn law_selected_lines_are_printed(
    o: GrepOptions,
    name: Option<Seq<char>>,
    lines: Seq<Seq<u8>>,
)
    requires
        prints_lines(o),
        o.before_context == 0,
        o.after_context == 0,
    ensures
        filtered(start_state(), o.step(name), lines, 0).1 == selected_lines(o, name, lines, 0),
{
    lemma_selected(o, name, lines, start_state(), 0);
}

proof fn lemma_selected(
    o: GrepOptions,
    name: Option<Seq<char>>,
    lines: Seq<Seq<u8>>,
    st: ScanState,
    i: int,
)
    requires
        prints_lines(o),
        o.before_context == 0,
        o.after_context == 0,
        0 <= i <= lines.len(),
        st.num == i,
        st.ring.len() == 0,
        st.after == 0,
        !st.stopped,
    ensures
        filtered(st, o.step(name), lines, i).1 == selected_lines(o, name, lines, i),
    decreases lines.len() - i,
{
    if i < lines.len() {
        let (mid, text) = o.line_step(name, st, lines[i]);
        assert(o.step(name)(st, lines[i]) == (mid, text));
        lemma_selected(o, name, lines, mid, i + 1);
        let none = Seq::<char>::empty();
        if o.selects(lossy(lines[i])) {
            assert(context_before(name, o.line_numbers, st.ring, st.last, 0).0 == none);
            let own = printed(name, o.line_numbers, ':', (i + 1) as nat, lossy(lines[i]));
            assert(none + none + own =~= own);
        }
    }
}

/// The numbered lines before place `i`, at most so many.
spec fn ring_at(o: GrepOptions, lines: Seq<Seq<u8>>, i: int) -> Seq<(nat, Seq<char>)> {
    let n = if i < o.before_context {
        i
    } else {
        o.before_context as int
    };
    Seq::new(
        if n < 0 {
            0
        } else {
            n as nat
        },
        |k: int| ((i - n + k + 1) as nat, lossy(lines[i - n + k])),
    )
}

proof fn lemma_before_hit(
    o: GrepOptions,
    name: Option<Seq<char>>,
    lines: Seq<Seq<u8>>,
    i: int,
    at: int,
)
    requires
        prints_lines(o),
        0 <= i <= at < lines.len(),
        forall|k: int| 0 <= k < at ==> !o.selects(lossy(#[trigger] lines[k])),
    ensures
        filtered(
            ScanState { num: i as nat, ring: ring_at(o, lines, i), ..start_state() },
            o.step(name),
            lines,
            i,
        ).1 == filtered(
            ScanState { num: at as nat, ring: ring_at(o, lines, at), ..start_state() },
            o.step(name),
            lines,
            at,
        ).1,
    decreases at - i,
{
    if i < at {
        let st = ScanState { num: i as nat, ring: ring_at(o, lines, i), ..start_state() };
        let next = ScanState {
            num: (i + 1) as nat,
            ring: ring_at(o, lines, i + 1),
            ..start_state()
        };
        let (mid, text) = o.line_step(name, st, lines[i]);
        assert(!o.selects(lossy(lines[i])));
        assert(o.step(name)(st, lines[i]) == (mid, text));
        assert(mid.ring =~= ring_at(o, lines, i + 1));
        assert(mid == next);
        assert(text.len() == 0);
        lemma_before_hit(o, name, lines, i + 1, at);
        let more = filtered(next, o.step(name), lines, i + 1).1;
        assert(text + more =~= more);
    }
}

proof fn lemma_ring_printed(
    o: GrepOptions,
    name: Option<Seq<char>>,
    lines: Seq<Seq<u8>>,
    at: int,
    last: nat,
    i: int,
)
    requires
        0 <= at <= lines.len(),
        0 <= i <= ring_at(o, lines, at).len(),
        last <= at - ring_at(o, lines, at).len() + i,
    ensures
        context_before(name, o.line_numbers, ring_at(o, lines, at), last, i).0 == printed_lines(
            name,
            o.line_numbers,
            '-',
            lines,
            at - ring_at(o, lines, at).len() + i,
            at,
        ),
    decreases ring_at(o, lines, at).len() - i,
{
    let ring = ring_at(o, lines, at);
    if i < ring.len() {
        lemma_ring_printed(o, name, lines, at, ring[i].0, i + 1);
    }
}

proof fn lemma_after_hit(
    o: GrepOptions,
    name: Option<Seq<char>>,
    lines: Seq<Seq<u8>>,
    st: ScanState,
    i: int,
)
    requires
        prints_lines(o),
        0 <= i <= lines.len(),
        forall|k: int| i <= k < lines.len() ==> !o.selects(lossy(#[trigger] lines[k])),
        st.num == i,
        st.last <= i,
        !st.stopped,
    ensures
        filtered(st, o.step(name), lines, i).1 == printed_lines(
            name,
            o.line_numbers,
            '-',
            lines,
            i,
            if i + st.after < lines.len() {
                i + st.after
            } else {
                lines.len() as int
            },
        ),
    decreases lines.len() - i,
{
    if i < lines.len() {
        let (mid, text) = o.line_step(name, st, lines[i]);
        assert(!o.selects(lossy(lines[i])));
        assert(o.step(name)(st, lines[i]) == (mid, text));
        lemma_after_hit(o, name, lines, mid, i + 1);
        let more = filtered(mid, o.step(name), lines, i + 1).1;
        if st.after == 0 {
            assert(text.len() == 0);
            assert(more.len() == 0);
            assert(text + more =~= Seq::<char>::empty());
        }
    }
}

/// Around the only line that is looked for, grep prints as many lines before it and behind it
/// as it was asked for, as far as there are so many, with a dash in place of the colon.
pub proof fn law_context_is_printed(
    o: GrepOptions,
    name: Option<Seq<char>>,
    lines: Seq<Seq<u8>>,
    at: int,
)
    requires
        prints_lines(o),
        0 <= at < lines.len(),
        forall|k: int|
            0 <= k < lines.len() ==> o.selects(lossy(#[trigger] lines[k])) == (k == at),
    ensures
        filtered(start_state(), o.step(name), lines, 0).1 == printed_lines(
            name,
            o.line_numbers,
            '-',
            lines,
            if at < o.before_context {
                0
            } else {
                at - o.before_context
            },
            at,
        ) + printed(name, o.line_numbers, ':', (at + 1) as nat, lossy(lines[at])) + printed_lines(
            name,
            o.line_numbers,
            '-',
            lines,
            at + 1,
            if at + 1 + o.after_context < lines.len() {
                at + 1 + o.after_context
            } else {
                lines.len() as int
            },
        ),
{
    let first = ScanState { num: 0, ring: ring_at(o, lines, 0), ..start_state() };
    assert(ring_at(o, lines, 0) =~= Seq::<(nat, Seq<char>)>::empty());
    assert(first == start_state());
    lemma_before_hit(o, name, lines, 0, at);
    let st = ScanState { num: at as nat, ring: ring_at(o, lines, at), ..start_state() };
    assert(o.selects(lossy(lines[at])));
    let (mid, text) = o.line_step(name, st, lines[at]);
    assert(o.step(name)(st, lines[at]) == (mid, text));
    lemma_ring_printed(o, name, lines, at, 0, 0);
    lemma_after_hit(o, name, lines, mid, at + 1);
    let more = filtered(mid, o.step(name), lines, at + 1).1;
    let context = context_before(name, o.line_numbers, st.ring, 0, 0).0;
    let own = printed(name, o.line_numbers, ':', (at + 1) as nat, lossy(lines[at]));
    assert(text =~= context + own);
    assert(text + more =~= context + own + more);
}

/// A line that is looked for is parted from what was printed before it by a line of two dashes,
/// where context is printed and lines were left out between them.
pub proof fn law_gaps_are_marked(
    o: GrepOptions,
    name: Option<Seq<char>>,
    st: ScanState,
    text: Seq<char>,
)
    requires
        prints_lines(o),
        st.ring.len() == 0,
    ensures
        o.has_context() && st.any && st.last > 0 && st.num > st.last ==> o.hit(name, st, text).1
            == seq!['-', '-', '\n'] + printed(name, o.line_numbers, ':', st.num + 1, text),
        !o.has_context() || !st.any || st.num == st.last ==> o.hit(name, st, text).1 == printed(
            name,
            o.line_numbers,
            ':',
            st.num + 1,
            text,
        ),
{
    reveal_strlit("--\n");
    assert("--\n"@ =~= seq!['-', '-', '\n']);
    let none = Seq::<char>::empty();
    let own = printed(name, o.line_numbers, ':', st.num + 1, text);
    assert(context_before(name, o.line_numbers, st.ring, st.last, 0).0 == none);
    assert(none + none + own =~= own);
    assert("--\n"@ + none + own =~= seq!['-', '-', '\n'] + own);
}

/// With `-q` and `-l` grep stops at the first line that it looks for: the one prints nothing,
/// the other the name.
pub proof fn law_first_match_is_enough(
    o: GrepOptions,
    f: Seq<char>,
    st: ScanState,
    line: Seq<u8>,
)
    requires
        !st.stopped,
        o.selects(lossy(line)),
    ensures
        o.quiet ==> o.line_step(Some(f), st, line).1.len() == 0 && o.line_step(
            Some(f),
            st,
            line,
        ).0.stopped,
        !o.quiet && o.files_only ==> o.line_step(Some(f), st, line).1 == f + seq!['\n']
            && o.line_step(Some(f), st, line).0.stopped,
        !o.quiet && !o.files_only && o.count_only ==> o.line_step(Some(f), st, line).1.len() == 0
            && !o.line_step(Some(f), st, line).0.stopped,
        o.line_step(Some(f), st, line).0.count == st.count + 1,
{
}

/// A count is printed where counts are asked for, behind the name of the file where names are.
pub proof fn law_counts_are_printed(o: GrepOptions, f: Seq<char>, n: nat)
    ensures
        o.count_only && !o.quiet ==> count_line(o, None, n) == decimal(n) + seq!['\n'],
        o.count_only && !o.quiet ==> count_line(o, Some(f), n) == f + seq![':'] + decimal(n) + seq![
            '\n',
        ],
        !o.count_only || o.quiet ==> count_line(o, Some(f), n).len() == 0,
{
    assert(Seq::<char>::empty() + decimal(n) + seq!['\n'] =~= decimal(n) + seq!['\n']);
}

/// The pattern is the value of `-e`, or else the first argument; the other arguments are
/// files.
pub proof fn law_pattern_and_files(p: Seq<char>, a: Seq<char>, b: Seq<char>)
    ensures
        pattern_and_files(seq![Tok::Value(p), Tok::Value(a), Tok::Value(b)], 3) == (
            Some(p),
            seq![a, b],
        ),
        pattern_and_files(seq![Tok::Valued('e', Some(p)), Tok::Value(a), Tok::Value(b)], 3) == (
            Some(p),
            seq![a, b],
        ),
        pattern_and_files(Seq::empty(), 0) == (None::<Seq<char>>, Seq::<Seq<char>>::empty()),
{
    reveal_with_fuel(pattern_and_files, 4);
    let none = Seq::<Seq<char>>::empty();
    assert(none.push(a).push(b) =~= seq![a, b]);
}

/// `-C` asks for context on both sides, `-B` before and `-A` behind a line.
pub proof fn law_context_sizes(n: usize)
    ensures
        context_size(seq![Tok::Valued('C', Some(decimal(n as nat)))], seq!['B', 'C']) == n,
        context_size(seq![Tok::Valued('C', Some(decimal(n as nat)))], seq!['A', 'C']) == n,
        context_size(seq![Tok::Valued('B', Some(decimal(n as nat)))], seq!['B', 'C']) == n,
        context_size(seq![Tok::Valued('B', Some(decimal(n as nat)))], seq!['A', 'C']) == 0,
        context_size(seq![Tok::Valued('A', Some(decimal(n as nat)))], seq!['A', 'C']) == n,
        context_size(seq![Tok::Valued('A', Some(decimal(n as nat)))], seq!['B', 'C']) == 0,
        context_size(Seq::empty(), seq!['A', 'C']) == 0,
{
    crate::num::law_decimal_is_read(n as nat, 'x', Seq::empty());
    reveal_with_fuel(last_valued, 2);
    let before = seq!['B', 'C'];
    let after = seq!['A', 'C'];
    assert(before[0] == 'B' && before[1] == 'C' && after[0] == 'A' && after[1] == 'C');
    assert(before.contains('B') && before.contains('C') && !before.contains('A'));
    assert(after.contains('A') && after.contains('C') && !after.contains('B'));
}

/// What the options of grep mean, each alone.
pub proof fn law_options_of_grep(
    o: GrepOptions,
    name: Seq<char>,
    c: char,
    p: Seq<char>,
)
    requires
        c != 'A' && c != 'B' && c != 'C' && c != 'e' && c != '-' && !crate::text::is_digit(c),
        p.len() > 0 ==> p[0] != '-',
        o.follows(grep_tokens(seq![name, seq!['-', c], p]), p),
    ensures
        o.case_insensitive == (c == 'i'),
        o.invert == (c == 'v'),
        o.line_numbers == (c == 'n'),
        o.count_only == (c == 'c'),
        o.files_only == (c == 'l'),
        o.quiet == (c == 'q'),
        o.fixed_string == (c == 'F'),
        o.before_context == 0 && o.after_context == 0,
        c == 'i' ==> o.pattern@ == lower(p),
        c != 'i' ==> o.pattern@ == p,
{
    let argv = seq![name, seq!['-', c], p];
    let valued = seq!['A', 'B', 'C', 'e'];
    let ts = seq![Tok::Short(c), Tok::Value(p)];
    assert(argv.skip(1) =~= seq![seq!['-', c]] + seq![p]);
    crate::args::law_short_options_in_a_row(c, 'x', seq![p], valued, false);
    crate::args::law_plain_arguments(p, Seq::empty(), valued, false);
    assert(seq![p] + Seq::<Seq<char>>::empty() =~= seq![p]);
    assert(seq![Tok::Short(c)] + (seq![Tok::Value(p)] + Seq::<Tok>::empty()) =~= ts);
    assert(grep_tokens(argv) == ts);
    assert(ts[0] == Tok::Short(c));
    assert(ts.contains(Tok::Short(c)));
    reveal_with_fuel(last_valued, 3);
}

/// `-A`, `-B`, `-C` and `-e` take a value and no other option does; the first argument is the
/// name of the command.
pub proof fn law_options_with_values(name: Seq<char>, args: Seq<Seq<char>>)
    ensures
        grep_tokens(seq![name] + args) == crate::args::tokens(args, seq!['A', 'B', 'C', 'e'], false),
        grep_tokens(Seq::empty()).len() == 0,
{
    assert((seq![name] + args).skip(1) =~= args);
}

/// Behind the line that ends a search nothing is printed and nothing is counted.
pub proof fn law_nothing_behind_the_end(
    o: GrepOptions,
    name: Option<Seq<char>>,
    st: ScanState,
    lines: Seq<Seq<u8>>,
    i: int,
)
    requires
        st.stopped,
        0 <= i <= lines.len(),
    ensures
        filtered(st, o.step(name), lines, i).0 == st,
        filtered(st, o.step(name), lines, i).1.len() == 0,
    decreases lines.len() - i,
{
    if i < lines.len() {
        assert(o.step(name)(st, lines[i]) == o.line_step(name, st, lines[i]));
        law_nothing_behind_the_end(o, name, st, lines, i + 1);
    }
}

/// Where counts are asked for, no lines are printed; where the search ends at its first line,
/// none but the name is.
pub proof fn law_no_lines_but_counts(
    o: GrepOptions,
    name: Option<Seq<char>>,
    st: ScanState,
    lines: Seq<Seq<u8>>,
    i: int,
)
    requires
        o.count_only || o.quiet,
        o.count_only || (st.after == 0 && o.before_context == 0),
        !o.files_only || o.quiet,
        0 <= i <= lines.len(),
    ensures
        filtered(st, o.step(name), lines, i).1.len() == 0,
    decreases lines.len() - i,
{
    if i < lines.len() {
        let (mid, text) = o.line_step(name, st, lines[i]);
        assert(o.step(name)(st, lines[i]) == (mid, text));
        law_no_lines_but_counts(o, name, mid, lines, i + 1);
    }
}

/// The name of a file is printed where there are several, and no name otherwise.
pub proof fn law_names_that_are_shown(g: Grep, i: int)
    ensures
        strings_of(g.files).len() > 1 && 0 <= i < strings_of(g.files).len() ==> g.shown(i) == Some(
            strings_of(g.files)[i],
        ),
        strings_of(g.files).len() <= 1 ==> g.shown(i) is None,
        i >= strings_of(g.files).len() ==> g.shown(i) is None,
{
}

} // verus!
