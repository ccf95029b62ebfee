//! date - print the date and time
//!
//! Format letters:
//!   %Y - year (4 digits)
//!   %m - month (01-12)
//!   %d - day of month (01-31)
//!   %H - hour (00-23)
//!   %M - minute (00-59)
//!   %S - second (00-59)
//!   %s - seconds since epoch (Unix timestamp)
//!   %N - nanoseconds (9 digits)
//!   %% - literal %
use vstd::prelude::*;
use vstd::string::StringExecFns;
use crate::commands::{Said, Start};
use crate::error::labelled;
use crate::num::{decimal, write_decimal, zero_pad, zero_padded};
use crate::text::{push_chars, text_part, to_chars};

verus! {

/// Whether a year has 366 days.
pub open spec fn leap(year: int) -> bool {
    (year % 4 == 0 && year % 100 != 0) || year % 400 == 0
}

pub open spec fn year_days(year: int) -> int {
    if leap(year) {
        366
    } else {
        365
    }
}

pub open spec fn month_days(year: int, month: int) -> int {
    if month == 2 {
        if leap(year) {
            29
        } else {
            28
        }
    } else if month == 4 || month == 6 || month == 9 || month == 11 {
        30
    } else {
        31
    }
}

/// The days from the first day of 1970 to the first day of a year.
pub open spec fn days_to_year(year: int) -> int
    decreases year - 1970,
{
    if year <= 1970 {
        0
    } else {
        days_to_year(year - 1) + year_days(year - 1)
    }
}

/// The days from the first day of a year to the first day of a month.
pub open spec fn days_to_month(year: int, month: int) -> int
    decreases month,
{
    if month <= 1 {
        0
    } else {
        days_to_month(year, month - 1) + month_days(year, month - 1)
    }
}

/// A day of the calendar from 1970 on.
pub open spec fn is_day(year: int, month: int, day: int) -> bool {
    1970 <= year && 1 <= month <= 12 && 1 <= day <= month_days(year, month)
}

/// The days from the first day of 1970 to a day.
pub open spec fn day_number(year: int, month: int, day: int) -> int {
    days_to_year(year) + days_to_month(year, month) + day - 1
}

/// A point of time as a date and a time of day.
pub struct DateTime {
    pub year: i32,
    pub month: u8,
    pub day: u8,
    pub hour: u8,
    pub minute: u8,
    pub second: u8,
    pub nanos: u32,
}

impl DateTime {
    /// Whether this is a point of time that the calendar and the clock have.
    pub open spec fn valid(self) -> bool {
        is_day(self.year as int, self.month as int, self.day as int) && self.hour < 24
            && self.minute < 60 && self.second < 60 && self.nanos < 1_000_000_000
    }

    /// The nanoseconds from the start of 1970.
    pub open spec fn since_epoch(self) -> int {
        (((day_number(self.year as int, self.month as int, self.day as int) * 24 + self.hour) * 60
            + self.minute) * 60 + self.second) * 1_000_000_000 + self.nanos
    }
}

proof fn lemma_months_fill_year(year: int)
    ensures
        days_to_month(year, 12) + month_days(year, 12) == year_days(year),
{
    reveal_with_fuel(days_to_month, 13);
}

/// Tests whether a year has 366 days.
pub fn is_leap_year(year: i32) -> (r: bool)
    ensures
        r == leap(year as int),
{
    (year % 4 == 0 && year % 100 != 0) || (year % 400 == 0)
}

fn length_of_month(year: i32, month: u8) -> (r: u64)
    requires
        year >= 0,
    ensures
        r == month_days(year as int, month as int),
{
    if month == 2 {
        if is_leap_year(year) {
            29
        } else {
            28
        }
    } else if month == 4 || month == 6 || month == 9 || month == 11 {
        30
    } else {
        31
    }
}

/// The date and the time of day of a point of time, given in nanoseconds from the
/// start of 1970.
pub fn nanos_to_date(nanos: u64) -> (r: DateTime)
    ensures
        r.valid(),
        r.since_epoch() == nanos,
{
    let secs = nanos / 1_000_000_000;
    let part = nanos % 1_000_000_000;
    let total = secs / 86400;
    let day_secs = secs % 86400;
    let hour = day_secs / 3600;
    let minute = (day_secs % 3600) / 60;
    let second = day_secs % 60;
    let mut days = total;
    let mut year: i32 = 1970;
    loop
        invariant
            total <= 213504,
            1970 <= year,
            days_to_year(year as int) + days == total,
            (year - 1970) * 365 + days <= total,
        ensures
            1970 <= year,
            days_to_year(year as int) + days == total,
            days < year_days(year as int),
        decreases days,
    {
        let length: u64 = if is_leap_year(year) {
            366
        } else {
            365
        };
        if days < length {
            break ;
        }
        days = days - length;
        year = year + 1;
    }
    let mut month: u8 = 1;
    proof {
        lemma_months_fill_year(year as int);
    }
    while month < 12 && days >= length_of_month(year, month)
        invariant
            1970 <= year,
            1 <= month <= 12,
            days_to_year(year as int) + days_to_month(year as int, month as int) + days == total,
            days_to_month(year as int, month as int) + days < year_days(year as int),
        decreases 12 - month,
    {
        days = days - length_of_month(year, month);
        month = month + 1;
    }
    DateTime {
        year,
        month,
        day: (days + 1) as u8,
        hour: hour as u8,
        minute: minute as u8,
        second: second as u8,
        nanos: part as u32,
    }
}

/// A number with zeros in front.
pub open spec fn padded(n: nat, width: int) -> Seq<char> {
    zero_pad(decimal(n), width)
}

/// What a format letter stands for; nothing where it is none.
pub open spec fn letter(d: DateTime, nanos: nat, c: char) -> Option<Seq<char>> {
    if c == 'Y' {
        Some(padded(d.year as nat, 4))
    } else if c == 'm' {
        Some(padded(d.month as nat, 2))
    } else if c == 'd' {
        Some(padded(d.day as nat, 2))
    } else if c == 'H' {
        Some(padded(d.hour as nat, 2))
    } else if c == 'M' {
        Some(padded(d.minute as nat, 2))
    } else if c == 'S' {
        Some(padded(d.second as nat, 2))
    } else if c == 's' {
        Some(decimal(nanos / 1_000_000_000))
    } else if c == 'N' {
        Some(padded(d.nanos as nat, 9))
    } else if c == '%' {
        Some(seq!['%'])
    } else {
        None
    }
}

/// A format from position `i` on with its letters replaced. A `%` before anything
/// else stays.
pub open spec fn dated_from(f: Seq<char>, i: int, d: DateTime, nanos: nat) -> Seq<char>
    decreases f.len() - i,
{
    if i < 0 || i >= f.len() {
        Seq::empty()
    } else if f[i] == '%' && i + 1 < f.len() && letter(d, nanos, f[i + 1]) is Some {
        letter(d, nanos, f[i + 1])->0 + dated_from(f, i + 2, d, nanos)
    } else {
        seq![f[i]] + dated_from(f, i + 1, d, nanos)
    }
}

fn push_padded(out: &mut String, n: u64, width: usize)
    ensures
        final(out)@ == old(out)@ + padded(n as nat, width as int),
{
    let ds = write_decimal(n);
    let s = zero_padded(&ds, width);
    out.append(s.as_str());
}

fn push_letter(out: &mut String, d: &DateTime, nanos: u64, c: char) -> (r: bool)
    requires
        d.valid(),
    ensures
        match letter(*d, nanos as nat, c) {
            Some(text) => r && final(out)@ == old(out)@ + text,
            None => !r && final(out)@ == old(out)@,
        },
{
    if c == 'Y' {
        push_padded(out, d.year as u64, 4);
    } else if c == 'm' {
        push_padded(out, d.month as u64, 2);
    } else if c == 'd' {
        push_padded(out, d.day as u64, 2);
    } else if c == 'H' {
        push_padded(out, d.hour as u64, 2);
    } else if c == 'M' {
        push_padded(out, d.minute as u64, 2);
    } else if c == 'S' {
        push_padded(out, d.second as u64, 2);
    } else if c == 's' {
        let ds = write_decimal(nanos / 1_000_000_000);
        push_chars(out, &ds);
    } else if c == 'N' {
        push_padded(out, d.nanos as u64, 9);
    } else if c == '%' {
        let ghost before = out@;
        out.push('%');
        proof {
            assert(out@ =~= before + seq!['%']);
        }
    } else {
        return false;
    }
    true
}

/// Formats a point of time.
pub fn format_date(format: &str, nanos: u64) -> (r: String)
    ensures
        exists|d: DateTime| #[trigger]
            d.valid() && d.since_epoch() == nanos && r@ == dated_from(format@, 0, d, nanos as nat),
{
    let d = nanos_to_date(nanos);
    let f = to_chars(format);
    let ghost whole = dated_from(f@, 0, d, nanos as nat);
    let mut out = String::new();
    let mut i: usize = 0;
    proof {
        assert(out@ + whole =~= whole);
    }
    while i < f.len()
        invariant
            d.valid(),
            f.len() == f@.len(),
            i <= f@.len(),
            out@ + dated_from(f@, i as int, d, nanos as nat) == whole,
        decreases f@.len() - i,
    {
        let ghost before = out@;
        let ghost at = i as int;
        let mut done = false;
        if f[i] == '%' && f.len() - i >= 2 {
            done = push_letter(&mut out, &d, nanos, f[i + 1]);
        }
        if done {
            i += 2;
            proof {
                let text = letter(d, nanos as nat, f@[at + 1])->0;
                let rest = dated_from(f@, i as int, d, nanos as nat);
                assert(before + text + rest =~= before + (text + rest));
            }
        } else {
            out.push(f[i]);
            i += 1;
            proof {
                let rest = dated_from(f@, i as int, d, nanos as nat);
                assert(out@ + rest =~= before + (seq![f@[at]] + rest));
            }
        }
    }
    proof {
        assert(out@ =~= whole);
        assert(d.valid());
    }
    out
}

/// Starts date: the format, or the complaint about an argument that is none.
pub fn run(argv: &Vec<String>) -> (r: Start<String>)
    ensures
        if argv@.len() < 2 {
            r matches Start::Go(f) && f@ == "%Y-%m-%d %H:%M:%S"@
        } else if argv@[1]@.len() > 0 && argv@[1]@[0] == '+' {
            r matches Start::Go(f) && f@ == argv@[1]@.skip(1)
        } else {
            r matches Start::Done(said) && said.says(
                Seq::empty(),
                "date: invalid option -- '"@ + argv@[1]@ + seq!['\'', '\n'],
                1,
            )
        },
{
    if argv.len() < 2 {
        return Start::Go("%Y-%m-%d %H:%M:%S".to_owned());
    }
    let cs = to_chars(argv[1].as_str());
    if cs.len() > 0 && cs[0] == '+' {
        proof {
            assert(cs@.subrange(1, cs@.len() as int) =~= cs@.skip(1));
        }
        return Start::Go(text_part(&cs, 1, cs.len()));
    }
    let mut m = labelled("date: invalid option -- '", argv[1].as_str());
    let ghost before = m@;
    m.push('\'');
    m.push('\n');
    proof {
        assert(m@ =~= before + seq!['\'', '\n']);
    }
    Start::Done(Said { out: String::new(), err: m, code: 1 })
}

// ---------------------------------------------------------------------------
// Laws
// ---------------------------------------------------------------------------

proof fn lemma_years_grow(a: int, b: int)
    requires
        1970 <= a <= b,
    ensures
        days_to_year(b) >= days_to_year(a),
        a < b ==> days_to_year(b) >= days_to_year(a) + year_days(a),
    decreases b - a,
{
    if a < b {
        lemma_years_grow(a, b - 1);
    }
}

proof fn lemma_months_grow(year: int, a: int, b: int)
    requires
        1 <= a <= b <= 12,
    ensures
        days_to_month(year, b) >= days_to_month(year, a),
        a < b ==> days_to_month(year, b) >= days_to_month(year, a) + month_days(year, a),
    decreases b - a,
{
    if a < b {
        lemma_months_grow(year, a, b - 1);
    }
}

proof fn lemma_in_year(year: int, month: int, day: int)
    requires
        is_day(year, month, day),
    ensures
        0 <= days_to_month(year, month) + day - 1 < year_days(year),
{
    lemma_months_fill_year(year);
    lemma_months_grow(year, month, 12);
    lemma_months_grow(year, 1, month);
}

/// No two days have the same number: a number is the date of one day alone.
pub proof fn law_days_are_numbered_apart(
    y1: int,
    m1: int,
    d1: int,
    y2: int,
    m2: int,
    d2: int,
)
    requires
        is_day(y1, m1, d1),
        is_day(y2, m2, d2),
        day_number(y1, m1, d1) == day_number(y2, m2, d2),
    ensures
        y1 == y2,
        m1 == m2,
        d1 == d2,
{
    lemma_in_year(y1, m1, d1);
    lemma_in_year(y2, m2, d2);
    if y1 < y2 {
        lemma_years_grow(y1, y2);
    } else if y2 < y1 {
        lemma_years_grow(y2, y1);
    } else if m1 < m2 {
        lemma_months_grow(y1, m1, m2);
    } else if m2 < m1 {
        lemma_months_grow(y1, m2, m1);
    }
}

/// Two dates and times of day that are the same point of time are the same.
pub proof fn law_one_date_for_each_instant(a: DateTime, b: DateTime)
    requires
        a.valid(),
        b.valid(),
        a.since_epoch() == b.since_epoch(),
    ensures
        a == b,
{
    law_days_are_numbered_apart(
        a.year as int,
        a.month as int,
        a.day as int,
        b.year as int,
        b.month as int,
        b.day as int,
    );
}

/// The days before a year: 365 for each year before it, one more for every fourth, one less
/// for every hundredth and one more for every four hundredth.
pub proof fn law_days_before_a_year(year: int)
    requires
        1970 <= year,
    ensures
        days_to_year(year) == 365 * (year - 1970) + ((year - 1) / 4 - 492) - ((year - 1) / 100 - 19)
            + ((year - 1) / 400 - 4),
    decreases year,
{
    if year > 1970 {
        law_days_before_a_year(year - 1);
    }
}

/// The months have thirty-one days but for four with thirty, and February with twenty-eight,
/// or twenty-nine in a leap year; together they make up the year.
pub proof fn law_days_of_the_months(year: int)
    ensures
        month_days(year, 1) == 31 && month_days(year, 3) == 31 && month_days(year, 4) == 30,
        month_days(year, 5) == 31 && month_days(year, 6) == 30 && month_days(year, 7) == 31,
        month_days(year, 8) == 31 && month_days(year, 9) == 30 && month_days(year, 10) == 31,
        month_days(year, 11) == 30 && month_days(year, 12) == 31,
        year % 4 != 0 || (year % 100 == 0 && year % 400 != 0) ==> month_days(year, 2) == 28
            && year_days(year) == 365,
        year % 4 == 0 && (year % 100 != 0 || year % 400 == 0) ==> month_days(year, 2) == 29
            && year_days(year) == 366,
        days_to_month(year, 1) == 0,
        days_to_month(year, 13) == year_days(year),
{
    reveal_with_fuel(days_to_month, 13);
}

/// The day behind a day is the next of its month, or the first of the next month, or the
/// first of the next year.
pub proof fn law_the_next_day(year: int, month: int, day: int)
    requires
        is_day(year, month, day),
    ensures
        day_number(1970, 1, 1) == 0,
        day_number(year, month, day + 1) == day_number(year, month, day) + 1,
        day == month_days(year, month) && month < 12 ==> day_number(year, month + 1, 1)
            == day_number(year, month, day) + 1,
        day == month_days(year, month) && month == 12 ==> day_number(year + 1, 1, 1) == day_number(
            year,
            month,
            day,
        ) + 1,
{
    law_days_of_the_months(year);
    reveal_with_fuel(days_to_month, 13);
}

proof fn lemma_dated_skip(a: Seq<char>, b: Seq<char>, i: int, d: DateTime, nanos: nat)
    requires
        0 <= i <= b.len(),
    ensures
        dated_from(a + b, a.len() + i, d, nanos) == dated_from(b, i, d, nanos),
    decreases b.len() - i,
{
    let s = a + b;
    let n = a.len() as int;
    if i < b.len() {
        assert(s[n + i] == b[i]);
        if i + 1 < b.len() {
            assert(s[n + i + 1] == b[i + 1]);
            lemma_dated_skip(a, b, i + 2, d, nanos);
        }
        lemma_dated_skip(a, b, i + 1, d, nanos);
    }
}

/// Each letter behind a percent sign stands for a part of the date, with zeros before it to
/// its width; other characters stand for themselves.
pub proof fn law_letters_of_a_date(d: DateTime, nanos: nat, c: char, rest: Seq<char>)
    requires
        d.year >= 0,
    ensures
        dated_from(Seq::empty(), 0, d, nanos).len() == 0,
        dated_from(seq!['%', 'Y'] + rest, 0, d, nanos) == zero_pad(decimal(d.year as nat), 4)
            + dated_from(rest, 0, d, nanos),
        dated_from(seq!['%', 'm'] + rest, 0, d, nanos) == zero_pad(decimal(d.month as nat), 2)
            + dated_from(rest, 0, d, nanos),
        dated_from(seq!['%', 'd'] + rest, 0, d, nanos) == zero_pad(decimal(d.day as nat), 2)
            + dated_from(rest, 0, d, nanos),
        dated_from(seq!['%', 'H'] + rest, 0, d, nanos) == zero_pad(decimal(d.hour as nat), 2)
            + dated_from(rest, 0, d, nanos),
        dated_from(seq!['%', 'M'] + rest, 0, d, nanos) == zero_pad(decimal(d.minute as nat), 2)
            + dated_from(rest, 0, d, nanos),
        dated_from(seq!['%', 'S'] + rest, 0, d, nanos) == zero_pad(decimal(d.second as nat), 2)
            + dated_from(rest, 0, d, nanos),
        dated_from(seq!['%', 's'] + rest, 0, d, nanos) == decimal(nanos / 1_000_000_000)
            + dated_from(rest, 0, d, nanos),
        dated_from(seq!['%', 'N'] + rest, 0, d, nanos) == zero_pad(decimal(d.nanos as nat), 9)
            + dated_from(rest, 0, d, nanos),
        dated_from(seq!['%', '%'] + rest, 0, d, nanos) == seq!['%'] + dated_from(rest, 0, d, nanos),
        c != '%' ==> dated_from(seq![c] + rest, 0, d, nanos) == seq![c] + dated_from(
            rest,
            0,
            d,
            nanos,
        ),
{
    lemma_dated_letter('Y', rest, d, nanos);
    lemma_dated_letter('m', rest, d, nanos);
    lemma_dated_letter('d', rest, d, nanos);
    lemma_dated_letter('H', rest, d, nanos);
    lemma_dated_letter('M', rest, d, nanos);
    lemma_dated_letter('S', rest, d, nanos);
    lemma_dated_letter('s', rest, d, nanos);
    lemma_dated_letter('N', rest, d, nanos);
    lemma_dated_letter('%', rest, d, nanos);
    lemma_dated_skip(seq![c], rest, 0, d, nanos);
    assert((seq![c] + rest)[0] == c);
}

proof fn lemma_dated_letter(c: char, rest: Seq<char>, d: DateTime, nanos: nat)
    requires
        letter(d, nanos, c) is Some,
    ensures
        dated_from(seq!['%', c] + rest, 0, d, nanos) == letter(d, nanos, c)->0 + dated_from(
            rest,
            0,
            d,
            nanos,
        ),
{
    let s = seq!['%', c] + rest;
    assert(s[0] == '%' && s[1] == c);
    lemma_dated_skip(seq!['%', c], rest, 0, d, nanos);
}

} // verus!
