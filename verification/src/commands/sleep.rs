//! sleep - suspend execution for an interval
//!
//! Usage: sleep NUMBER[SUFFIX]...
//!
//! SUFFIX may be 's' for seconds (default), 'm' for minutes,
//! 'h' for hours, or 'd' for days.
use vstd::prelude::*;
use vstd::string::StringExecFns;
use crate::commands::{Said, Start};
use crate::text::{text_part, to_chars, trim, trim_chars};

verus! {

/// The seconds that a suffix stands for.
pub open spec fn unit(suffix: char) -> Option<nat> {
    if suffix == 's' {
        Some(1)
    } else if suffix == 'm' {
        Some(60)
    } else if suffix == 'h' {
        Some(3600)
    } else if suffix == 'd' {
        Some(86400)
    } else {
        None
    }
}

/// The parts of an interval from `i` on: each is the text of a number and the seconds
/// that its suffix stands for. A suffix ends a part, and the part that is being read
/// starts at `from`. What stands behind the last suffix counts seconds.
pub open spec fn parts_from(t: Seq<char>, from: int, i: int) -> Seq<(Seq<char>, nat)>
    decreases t.len() - i,
{
    if i < 0 || i >= t.len() {
        if from < t.len() {
            seq![(t.skip(from), 1)]
        } else {
            Seq::empty()
        }
    } else {
        match unit(t[i]) {
            Some(n) => seq![(t.subrange(from, i), n)] + parts_from(t, i + 1, i + 1),
            None => parts_from(t, from, i + 1),
        }
    }
}

/// The parts of an interval, without the white space around it.
pub open spec fn parts(s: Seq<char>) -> Seq<(Seq<char>, nat)> {
    parts_from(trim(s), 0, 0)
}

/// The views of the parts of an interval.
pub open spec fn part_views(v: Seq<(String, u32)>) -> Seq<(Seq<char>, nat)> {
    v.map_values(|p: (String, u32)| (p.0@, p.1 as nat))
}

fn unit_of(c: char) -> (r: Option<u32>)
    ensures
        match (r, unit(c)) {
            (Some(n), Some(m)) => n == m,
            (None, None) => true,
            _ => false,
        },
{
    if c == 's' {
        Some(1)
    } else if c == 'm' {
        Some(60)
    } else if c == 'h' {
        Some(3600)
    } else if c == 'd' {
        Some(86400)
    } else {
        None
    }
}

/// Cuts an interval into its parts, such as `1h30m` into 1 hour and 30 minutes. The
/// interval is as long as its parts together. There is no part where there is only
/// white space.
pub fn split_interval(s: &str) -> (r: Vec<(String, u32)>)
    ensures
        part_views(r@) == parts(s@),
{
    let cs = to_chars(s);
    let t = trim_chars(&cs);
    let mut r: Vec<(String, u32)> = Vec::new();
    let mut from: usize = 0;
    let mut i: usize = 0;
    proof {
        assert(part_views(r@) + parts_from(t@, 0, 0) =~= parts_from(t@, 0, 0));
    }
    while i < t.len()
        invariant
            from <= i <= t@.len(),
            part_views(r@) + parts_from(t@, from as int, i as int) == parts_from(t@, 0, 0),
        decreases t@.len() - i,
    {
        match unit_of(t[i]) {
            Some(n) => {
                let ghost before = r@;
                let number = text_part(&t, from, i);
                let p = (number, n);
                r.push(p);
                proof {
                    assert(part_views(r@) =~= part_views(before).push((number@, n as nat)));
                    assert(part_views(r@) + parts_from(t@, i + 1, i + 1) =~= part_views(before)
                        + parts_from(t@, from as int, i as int));
                }
                from = i + 1;
            },
            None => {},
        }
        i += 1;
    }
    if from < t.len() {
        let ghost before = r@;
        let number = text_part(&t, from, t.len());
        let p = (number, 1u32);
        r.push(p);
        proof {
            assert(t@.subrange(from as int, t@.len() as int) =~= t@.skip(from as int));
            assert(part_views(r@) =~= part_views(before) + parts_from(t@, from as int, i as int));
        }
    } else {
        proof {
            assert(part_views(r@) + parts_from(t@, from as int, i as int) =~= part_views(r@));
        }
    }
    r
}

/// How long an interval is, where it is one: whole seconds, and nanoseconds below a
/// second.
#[derive(Debug, Clone, Copy, PartialEq, Eq, Structural)]
pub struct Span {
    pub secs: u64,
    pub nanos: u32,
}

impl Span {
    /// The nanoseconds of a span.
    pub open spec fn total(self) -> nat {
        (self.secs * 1_000_000_000 + self.nanos) as nat
    }

    /// A span with less than a second of nanoseconds.
    pub open spec fn is_proper(self) -> bool {
        self.nanos < 1_000_000_000
    }
}

/// The nanoseconds of the intervals from `i` on, up to the first argument that is no
/// interval.
pub open spec fn total_from(spans: Seq<Option<Span>>, i: int) -> nat
    decreases spans.len() - i,
{
    if i < 0 || i >= spans.len() {
        0
    } else {
        match spans[i] {
            Some(d) => d.total() + total_from(spans, i + 1),
            None => 0,
        }
    }
}

/// The first argument from the `i`th on that is no interval.
pub open spec fn first_invalid(spans: Seq<Option<Span>>, i: int) -> int
    decreases spans.len() - i,
{
    if i < 0 || i >= spans.len() || spans[i] is None {
        i
    } else {
        first_invalid(spans, i + 1)
    }
}

/// sleep NUMBER[SUFFIX]... - suspend execution for interval of time. `spans` holds
/// how long each argument is.
pub fn run(argv: &Vec<String>, spans: &Vec<Option<Span>>) -> (r: Start<Span>)
    requires
        argv@.len() > 0 ==> spans@.len() == argv@.len() - 1,
        forall|i: int|
            0 <= i < spans@.len() ==> (#[trigger] spans@[i] matches Some(d) ==> d.is_proper()),
        total_from(spans@, 0) < 0x1_0000_0000_0000_0000 * 1_000_000_000,
    ensures
        match r {
            Start::Done(said) => if argv@.len() <= 1 {
                said.says(Seq::empty(), "sleep: missing operand"@ + seq!['\n'], 1)
            } else {
                let k = first_invalid(spans@, 0);
                k < spans@.len() && said.says(
                    Seq::empty(),
                    "sleep: invalid time interval '"@ + argv@[k + 1]@ + "'\n"@,
                    1,
                )
            },
            Start::Go(d) => argv@.len() > 1 && first_invalid(spans@, 0) == spans@.len()
                && d.is_proper() && d.total() == total_from(spans@, 0),
        },
{
    if argv.len() <= 1 {
        return Start::Done(Said::complaint("sleep: missing operand", 1));
    }
    let mut secs: u64 = 0;
    let mut nanos: u32 = 0;
    let mut i: usize = 0;
    while i < spans.len()
        invariant
            argv@.len() > 1,
            spans@.len() == argv@.len() - 1,
            forall|i: int|
                0 <= i < spans@.len() ==> (#[trigger] spans@[i] matches Some(d) ==> d.is_proper()),
            total_from(spans@, 0) < 0x1_0000_0000_0000_0000 * 1_000_000_000,
            i <= spans@.len(),
            nanos < 1_000_000_000,
            secs * 1_000_000_000 + nanos + total_from(spans@, i as int) == total_from(spans@, 0),
            first_invalid(spans@, i as int) == first_invalid(spans@, 0),
        decreases spans@.len() - i,
    {
        match spans[i] {
            Some(d) => {
                proof {
                    assert(spans@[i as int] == Some(d));
                    assert(d.is_proper());
                    assert(secs * 1_000_000_000 + d.secs * 1_000_000_000 + nanos + d.nanos
                        <= total_from(spans@, 0));
                }
                let below = nanos + d.nanos;
                if below >= 1_000_000_000 {
                    secs = secs + d.secs + 1;
                    nanos = below - 1_000_000_000;
                } else {
                    secs = secs + d.secs;
                    nanos = below;
                }
            },
            None => {
                let mut err = "sleep: invalid time interval '".to_owned();
                err.append(argv[i + 1].as_str());
                err.append("'\n");
                return Start::Done(Said { out: String::new(), err, code: 1 });
            },
        }
        i += 1;
    }
    Start::Go(Span { secs, nanos })
}

/// The units: seconds, minutes, hours and days.
pub proof fn law_units(c: char)
    ensures
        unit('s') == Some(1nat),
        unit('m') == Some(60nat),
        unit('h') == Some(60 * 60nat),
        unit('d') == Some(24 * 60 * 60nat),
        c != 's' && c != 'm' && c != 'h' && c != 'd' ==> unit(c) is None,
{
}

proof fn lemma_parts_skip(a: Seq<char>, b: Seq<char>, from: int, i: int)
    requires
        0 <= from <= i <= b.len(),
    ensures
        parts_from(a + b, a.len() + from, a.len() + i) == parts_from(b, from, i),
    decreases b.len() - i,
{
    let n = a.len() as int;
    if i < b.len() {
        assert((a + b)[n + i] == b[i]);
        lemma_parts_skip(a, b, i + 1, i + 1);
        lemma_parts_skip(a, b, from, i + 1);
        assert((a + b).subrange(n + from, n + i) =~= b.subrange(from, i));
    } else {
        assert((a + b).skip(n + from) =~= b.skip(from));
    }
}

proof fn lemma_parts_run(t: Seq<char>, i: int, end: int)
    requires
        0 <= i <= end <= t.len(),
        forall|k: int| i <= k < end ==> unit(#[trigger] t[k]) is None,
    ensures
        parts_from(t, 0, i) == parts_from(t, 0, end),
    decreases end - i,
{
    if i < end {
        assert(unit(t[i]) is None);
        lemma_parts_run(t, i + 1, end);
    }
}

/// An interval is made up of numbers with a unit behind each; a last number without one counts
/// seconds.
pub proof fn law_parts_of_an_interval(num: Seq<char>, c: char, rest: Seq<char>)
    requires
        num.len() > 0,
        forall|k: int| 0 <= k < num.len() ==> unit(#[trigger] num[k]) is None,
        unit(c) is Some,
    ensures
        parts_from(Seq::empty(), 0, 0).len() == 0,
        parts_from(num, 0, 0) == seq![(num, 1nat)],
        parts_from(num + seq![c] + rest, 0, 0) == seq![(num, unit(c)->0)] + parts_from(rest, 0, 0),
{
    let n = num.len() as int;
    lemma_parts_run(num, 0, n);
    assert(num.skip(0) =~= num);
    let t = num + seq![c] + rest;
    assert forall|k: int| 0 <= k < n implies unit(#[trigger] t[k]) is None by {
        assert(t[k] == num[k]);
    }
    lemma_parts_run(t, 0, n);
    assert(t[n] == c);
    assert(t.subrange(0, n) =~= num);
    lemma_parts_skip(num + seq![c], rest, 0, 0);
}

/// Intervals add up, to the first that is none.
pub proof fn law_intervals_add_up(spans: Seq<Option<Span>>, d: Span)
    requires
        forall|k: int| 0 <= k < spans.len() ==> (#[trigger] spans[k]) is Some,
    ensures
        total_from(spans.push(Some(d)), 0) == total_from(spans, 0) + d.secs * 1_000_000_000
            + d.nanos,
        first_invalid(spans.push(None), 0) == spans.len(),
        first_invalid(spans, 0) == spans.len(),
{
    lemma_total_grows(spans, d, 0);
    lemma_all_valid(spans, 0);
    lemma_all_valid_but_last(spans, 0);
}

proof fn lemma_total_grows(spans: Seq<Option<Span>>, d: Span, i: int)
    requires
        0 <= i <= spans.len(),
        forall|k: int| 0 <= k < spans.len() ==> (#[trigger] spans[k]) is Some,
    ensures
        total_from(spans.push(Some(d)), i) == total_from(spans, i) + d.total(),
    decreases spans.len() - i,
{
    let all = spans.push(Some(d));
    reveal_with_fuel(total_from, 2);
    if i < spans.len() {
        assert(all[i] == spans[i]);
        lemma_total_grows(spans, d, i + 1);
    } else {
        assert(all[i] == Some(d));
    }
}

proof fn lemma_all_valid(spans: Seq<Option<Span>>, i: int)
    requires
        0 <= i <= spans.len(),
        forall|k: int| 0 <= k < spans.len() ==> (#[trigger] spans[k]) is Some,
    ensures
        first_invalid(spans, i) == spans.len(),
    decreases spans.len() - i,
{
    if i < spans.len() {
        assert(spans[i] is Some);
        lemma_all_valid(spans, i + 1);
    }
}

proof fn lemma_all_valid_but_last(spans: Seq<Option<Span>>, i: int)
    requires
        0 <= i <= spans.len(),
        forall|k: int| 0 <= k < spans.len() ==> (#[trigger] spans[k]) is Some,
    ensures
        first_invalid(spans.push(None), i) == spans.len(),
    decreases spans.len() - i,
{
    let all = spans.push(None);
    if i < spans.len() {
        assert(all[i] == spans[i]);
        assert(spans[i] is Some);
        lemma_all_valid_but_last(spans, i + 1);
    } else {
        assert(all[i] is None);
    }
}

/// A span is so many seconds and a part of a second.
pub proof fn law_spans(d: Span)
    ensures
        d.is_proper() == (d.nanos <= 999_999_999),
        d.total() == 1_000_000_000 * d.secs + d.nanos,
{
}

} // verus!
