//! Command line arguments.
//!
//! `lexopt` takes the arguments apart; the functions here say what the commands
//! read out of what it finds.
use vstd::prelude::*;
use crate::list::{strings_of, Strings};
use crate::num::{
    decimal, law_decimal_is_read, lemma_decimal_reads_back, parse_usize, read_usize,
};
use crate::text::{
    char_is_digit, find_from, is_digit, starts_with, str_eq, strs, to_chars, to_text,
};

verus! {

/// `lexopt::Parser`: a parser of command line arguments.
#[verifier::external_type_specification]
#[verifier::external_body]
pub struct ExParser(lexopt::Parser);

/// Where a parser stands.
pub enum ParserState {
    /// Between two arguments; these are left.
    Plain(Seq<Seq<char>>),
    /// Behind `--option=`: the value, and the arguments that are left.
    Pending(Seq<char>, Seq<Seq<char>>),
    /// In a row of short options: the argument, the place of the next option in it,
    /// and the arguments that are left.
    Cluster(Seq<char>, int, Seq<Seq<char>>),
    /// Behind `--`; these are left.
    Finished(Seq<Seq<char>>),
}

/// What a parser finds.
pub enum Found {
    End,
    Fail,
    Short(char),
    Long(Seq<char>),
    Value(Seq<char>),
}

/// Where a `lexopt` parser stands.
pub uninterp spec fn parser_state(p: lexopt::Parser) -> ParserState;

pub open spec fn next_finished(rest: Seq<Seq<char>>) -> (Found, ParserState) {
    if rest.len() == 0 {
        (Found::End, ParserState::Finished(rest))
    } else {
        (Found::Value(rest[0]), ParserState::Finished(rest.skip(1)))
    }
}

pub open spec fn next_plain(rest: Seq<Seq<char>>) -> (Found, ParserState) {
    if rest.len() == 0 {
        (Found::End, ParserState::Plain(rest))
    } else {
        let a = rest[0];
        let left = rest.skip(1);
        if a == seq!['-', '-'] {
            next_finished(left)
        } else if starts_with(a, seq!['-', '-']) {
            let eq = find_from(a, '=', 0);
            if eq < a.len() {
                (Found::Long(a.subrange(2, eq)), ParserState::Pending(a.skip(eq + 1), left))
            } else {
                (Found::Long(a.skip(2)), ParserState::Plain(left))
            }
        } else if a.len() > 1 && a[0] == '-' {
            (Found::Short(a[1]), ParserState::Cluster(a, 2, left))
        } else {
            (Found::Value(a), ParserState::Plain(left))
        }
    }
}

/// What a parser finds next, and where it stands then.
pub open spec fn next_found(st: ParserState) -> (Found, ParserState) {
    match st {
        ParserState::Plain(rest) => next_plain(rest),
        ParserState::Pending(_, rest) => (Found::Fail, ParserState::Plain(rest)),
        ParserState::Cluster(a, k, rest) => if k >= a.len() {
            next_plain(rest)
        } else if a[k] == '=' {
            (Found::Fail, ParserState::Plain(rest))
        } else {
            (Found::Short(a[k]), ParserState::Cluster(a, k + 1, rest))
        },
        ParserState::Finished(rest) => next_finished(rest),
    }
}

/// The value that is attached to the option before, and where the parser stands
/// then.
pub open spec fn next_attached(st: ParserState) -> (Option<Seq<char>>, ParserState) {
    match st {
        ParserState::Plain(_) => (None, st),
        ParserState::Pending(v, rest) => (Some(v), ParserState::Plain(rest)),
        ParserState::Cluster(a, k, rest) => if k >= a.len() {
            (None, ParserState::Plain(rest))
        } else if a[k] == '=' {
            (Some(a.skip(k + 1)), ParserState::Plain(rest))
        } else {
            (Some(a.skip(k)), ParserState::Plain(rest))
        },
        ParserState::Finished(_) => (None, st),
    }
}

/// The value of the option before, attached or as the next argument, and where
/// the parser stands then.
pub open spec fn next_value(st: ParserState) -> (Option<Seq<char>>, ParserState) {
    match next_attached(st) {
        (Some(v), after) => (Some(v), after),
        (None, ParserState::Plain(rest)) => if rest.len() > 0 {
            (Some(rest[0]), ParserState::Plain(rest.skip(1)))
        } else {
            (None, ParserState::Plain(rest))
        },
        (None, ParserState::Finished(rest)) => if rest.len() > 0 {
            (Some(rest[0]), ParserState::Finished(rest.skip(1)))
        } else {
            (None, ParserState::Finished(rest))
        },
        (None, after) => (None, after),
    }
}

/// What a parser found.
pub enum ArgStep {
    End,
    Fail,
    Short(char),
    Long(String),
    Value(String),
}

impl View for ArgStep {
    type V = Found;

    open spec fn view(&self) -> Found {
        match self {
            ArgStep::End => Found::End,
            ArgStep::Fail => Found::Fail,
            ArgStep::Short(c) => Found::Short(*c),
            ArgStep::Long(s) => Found::Long(s@),
            ArgStep::Value(s) => Found::Value(s@),
        }
    }
}

/// `lexopt::Parser::from_iter`: the parser starts before the argument behind the
/// first one, which is the name of the command.
#[verifier::external_body]
pub(crate) fn parser_from_argv(argv: &Vec<String>) -> (r: lexopt::Parser)
    ensures
        parser_state(r) == ParserState::Plain(
            if argv@.len() == 0 {
                Seq::empty()
            } else {
                strs(argv@).skip(1)
            },
        ),
{
    lexopt::Parser::from_iter(argv.iter().map(String::as_str))
}

/// `lexopt::Parser::next`: an option or an argument. A short option is one
/// character behind a single `-`, and the characters behind it are short options
/// too; `--name` and `--name=value` are long options; behind `--` everything is an
/// argument, and so is `-`. It fails where a value stands that was not asked for:
/// behind `--name=`, or behind a `=` in a row of short options.
#[verifier::external_body]
pub(crate) fn parser_next(p: &mut lexopt::Parser) -> (r: ArgStep)
    ensures
        (r@, parser_state(*final(p))) == next_found(parser_state(*old(p))),
{
    match p.next() {
        Ok(Some(lexopt::Arg::Short(c))) => ArgStep::Short(c),
        Ok(Some(lexopt::Arg::Long(s))) => ArgStep::Long(s.to_string()),
        Ok(Some(lexopt::Arg::Value(v))) => ArgStep::Value(v.to_string_lossy().into_owned()),
        Ok(None) => ArgStep::End,
        Err(_) => ArgStep::Fail,
    }
}

/// `lexopt::Parser::optional_value`: what is attached to the option before, without
/// a `=` in front of it.
#[verifier::external_body]
pub(crate) fn parser_attached(p: &mut lexopt::Parser) -> (r: Option<String>)
    ensures
        (
            match r {
                Some(s) => Some(s@),
                None => None,
            },
            parser_state(*final(p)),
        ) == next_attached(parser_state(*old(p))),
{
    p.optional_value().map(|v| v.to_string_lossy().into_owned())
}

/// `lexopt::Parser::value`: what is attached to the option before, or else the next
/// argument, whatever it looks like; nothing where there is none.
#[verifier::external_body]
pub(crate) fn parser_value(p: &mut lexopt::Parser) -> (r: Option<String>)
    ensures
        (
            match r {
                Some(s) => Some(s@),
                None => None,
            },
            parser_state(*final(p)),
        ) == next_value(parser_state(*old(p))),
{
    p.value().ok().map(|v| v.to_string_lossy().into_owned())
}

// ---------------------------------------------------------------------------
// What a command finds in its arguments
// ---------------------------------------------------------------------------

/// One thing that a command finds in its arguments.
#[derive(Debug)]
pub enum ArgToken {
    /// A short option.
    Short(char),
    /// A long option.
    Long(String),
    /// A short option that takes a value; no value where none is left.
    Valued(char, Option<String>),
    /// A number behind `-`.
    Digits(String),
    /// An argument.
    Value(String),
}

/// One thing that a command finds in its arguments.
pub enum Tok {
    Short(char),
    Long(Seq<char>),
    Valued(char, Option<Seq<char>>),
    Digits(Seq<char>),
    Value(Seq<char>),
}

impl View for ArgToken {
    type V = Tok;

    open spec fn view(&self) -> Tok {
        match self {
            ArgToken::Short(c) => Tok::Short(*c),
            ArgToken::Long(s) => Tok::Long(s@),
            ArgToken::Valued(c, v) => Tok::Valued(
                *c,
                match v {
                    Some(s) => Some(s@),
                    None => None,
                },
            ),
            ArgToken::Digits(s) => Tok::Digits(s@),
            ArgToken::Value(s) => Tok::Value(s@),
        }
    }
}

pub open spec fn toks(v: Seq<ArgToken>) -> Seq<Tok> {
    v.map_values(|t: ArgToken| t@)
}

/// Arguments that are nothing else.
pub open spec fn plain_values(rest: Seq<Seq<char>>) -> Seq<Tok> {
    rest.map_values(|a: Seq<char>| Tok::Value(a))
}

/// What is found in the arguments `rest`. The short options in `valued` take a
/// value; with `digits`, a digit starts a number.
pub open spec fn tokens(rest: Seq<Seq<char>>, valued: Seq<char>, digits: bool) -> Seq<Tok>
    decreases rest.len(), 0int,
{
    if rest.len() == 0 {
        Seq::empty()
    } else {
        let a = rest[0];
        let left = rest.skip(1);
        if a == seq!['-', '-'] {
            plain_values(left)
        } else if starts_with(a, seq!['-', '-']) {
            let eq = find_from(a, '=', 0);
            if eq < a.len() {
                seq![Tok::Long(a.subrange(2, eq))]
            } else {
                seq![Tok::Long(a.skip(2))] + tokens(left, valued, digits)
            }
        } else if a.len() > 1 && a[0] == '-' {
            cluster_tokens(a, 1, left, valued, digits)
        } else {
            seq![Tok::Value(a)] + tokens(left, valued, digits)
        }
    }
}

/// What is found in the row of short options `a` from place `k` on, and in the
/// arguments behind it.
pub open spec fn cluster_tokens(
    a: Seq<char>,
    k: int,
    rest: Seq<Seq<char>>,
    valued: Seq<char>,
    digits: bool,
) -> Seq<Tok>
    decreases rest.len(), a.len() + 1 - k,
{
    if k < 1 || k > a.len() {
        Seq::empty()
    } else if k == a.len() {
        tokens(rest, valued, digits)
    } else if a[k] == '=' && k > 1 {
        Seq::empty()
    } else {
        option_tokens(a, k, rest, valued, digits)
    }
}

/// What the short option at place `k` gives, and what is found behind it.
pub open spec fn option_tokens(
    a: Seq<char>,
    k: int,
    rest: Seq<Seq<char>>,
    valued: Seq<char>,
    digits: bool,
) -> Seq<Tok>
    decreases rest.len(), a.len() + 1 - k, 0int,
{
    let c = a[k];
    let attached = if k + 1 >= a.len() {
        None
    } else if a[k + 1] == '=' {
        Some(a.skip(k + 2))
    } else {
        Some(a.skip(k + 1))
    };
    if k < 1 || k >= a.len() {
        Seq::empty()
    } else if valued.contains(c) {
        match attached {
            Some(v) => seq![Tok::Valued(c, Some(v))] + tokens(rest, valued, digits),
            None => if rest.len() > 0 {
                seq![Tok::Valued(c, Some(rest[0]))] + tokens(rest.skip(1), valued, digits)
            } else {
                seq![Tok::Valued(c, None)]
            },
        }
    } else if digits && is_digit(c) {
        match attached {
            Some(v) => seq![Tok::Digits(seq![c] + v)] + tokens(rest, valued, digits),
            None => seq![Tok::Digits(seq![c])] + tokens(rest, valued, digits),
        }
    } else {
        seq![Tok::Short(c)] + cluster_tokens(a, k + 1, rest, valued, digits)
    }
}

/// What a command finds in its arguments; the first one is its name.
pub open spec fn arg_tokens(argv: Seq<Seq<char>>, valued: Seq<char>, digits: bool) -> Seq<Tok> {
    if argv.len() == 0 {
        Seq::empty()
    } else {
        tokens(argv.skip(1), valued, digits)
    }
}

/// What is still to be found from where a parser stands.
spec fn tokens_at(st: ParserState, valued: Seq<char>, digits: bool) -> Seq<Tok> {
    match st {
        ParserState::Plain(rest) => tokens(rest, valued, digits),
        ParserState::Pending(_, _) => Seq::empty(),
        ParserState::Cluster(a, k, rest) => cluster_tokens(a, k, rest, valued, digits),
        ParserState::Finished(rest) => plain_values(rest),
    }
}

spec fn total(rest: Seq<Seq<char>>) -> nat
    decreases rest.len(),
{
    if rest.len() == 0 {
        0
    } else {
        rest[0].len() + 3 + total(rest.skip(1))
    }
}

spec fn size(st: ParserState) -> int {
    match st {
        ParserState::Plain(rest) => total(rest) as int,
        ParserState::Pending(_, rest) => total(rest) as int,
        ParserState::Cluster(a, k, rest) => total(rest) + (a.len() - k) + 1,
        ParserState::Finished(rest) => total(rest) as int,
    }
}

spec fn sound(st: ParserState) -> bool {
    st matches ParserState::Cluster(a, k, _) ==> 2 <= k <= a.len()
}

fn contains_char(s: &[char], c: char) -> (r: bool)
    ensures
        r == s@.contains(c),
{
    let mut i: usize = 0;
    while i < s.len()
        invariant
            i <= s@.len(),
            forall|k: int| 0 <= k < i ==> s@[k] != c,
        decreases s@.len() - i,
    {
        if s[i] == c {
            return true;
        }
        i += 1;
    }
    false
}

/// What a found option or argument adds, and what is found behind it: the step of
/// the search, seen from where the parser stands after it has told a short option.
proof fn lemma_step(st: ParserState, valued: Seq<char>, digits: bool)
    requires
        sound(st),
    ensures
        ({
            let (found, after) = next_found(st);
            &&& sound(after)
            &&& found is Short || found is Long || found is Value ==> 0 <= size(after) < size(st)
            &&& match found {
                Found::End => tokens_at(st, valued, digits) == Seq::<Tok>::empty(),
                Found::Fail => tokens_at(st, valued, digits) == Seq::<Tok>::empty(),
                Found::Long(s) => tokens_at(st, valued, digits) == seq![Tok::Long(s)] + tokens_at(
                    after,
                    valued,
                    digits,
                ),
                Found::Value(s) => tokens_at(st, valued, digits) == seq![Tok::Value(s)] + tokens_at(
                    after,
                    valued,
                    digits,
                ),
                Found::Short(c) => after matches ParserState::Cluster(a, k, rest) && a[k - 1] == c
                    && tokens_at(st, valued, digits) == option_tokens(
                    a,
                    k - 1,
                    rest,
                    valued,
                    digits,
                ),
            }
        }),
{
    match st {
        ParserState::Plain(rest) => {
            lemma_step_plain(rest, valued, digits);
        },
        ParserState::Pending(_, _) => {},
        ParserState::Cluster(a, k, rest) => {
            if k >= a.len() {
                lemma_step_plain(rest, valued, digits);
            }
        },
        ParserState::Finished(rest) => {
            lemma_step_finished(rest);
        },
    }
}

proof fn lemma_step_finished(rest: Seq<Seq<char>>)
    ensures
        rest.len() == 0 ==> plain_values(rest) == Seq::<Tok>::empty(),
        rest.len() > 0 ==> plain_values(rest) == seq![Tok::Value(rest[0])] + plain_values(
            rest.skip(1),
        ),
        rest.len() > 0 ==> total(rest.skip(1)) < total(rest),
{
    if rest.len() == 0 {
        assert(plain_values(rest) =~= Seq::<Tok>::empty());
    } else {
        assert(plain_values(rest) =~= seq![Tok::Value(rest[0])] + plain_values(rest.skip(1)));
    }
}

proof fn lemma_step_plain(rest: Seq<Seq<char>>, valued: Seq<char>, digits: bool)
    ensures
        ({
            let (found, after) = next_plain(rest);
            &&& sound(after)
            &&& found is Short || found is Long || found is Value ==> 0 <= size(after) < total(rest)
            &&& !(found is Fail)
            &&& match found {
                Found::End => tokens(rest, valued, digits) == Seq::<Tok>::empty(),
                Found::Fail => true,
                Found::Long(s) => tokens(rest, valued, digits) == seq![Tok::Long(s)] + tokens_at(
                    after,
                    valued,
                    digits,
                ),
                Found::Value(s) => tokens(rest, valued, digits) == seq![Tok::Value(s)] + tokens_at(
                    after,
                    valued,
                    digits,
                ),
                Found::Short(c) => after matches ParserState::Cluster(a, k, left) && a[k - 1] == c
                    && tokens(rest, valued, digits) == option_tokens(
                    a,
                    k - 1,
                    left,
                    valued,
                    digits,
                ),
            }
        }),
{
    if rest.len() > 0 {
        let a = rest[0];
        let left = rest.skip(1);
        if a == seq!['-', '-'] {
            lemma_step_finished(left);
        } else if starts_with(a, seq!['-', '-']) {
            let eq = find_from(a, '=', 0);
            if eq < a.len() {
                assert(tokens(rest, valued, digits) =~= seq![Tok::Long(a.subrange(2, eq))]
                    + Seq::<Tok>::empty());
            }
        } else if a.len() > 1 && a[0] == '-' {
            assert(cluster_tokens(a, 1, left, valued, digits) == option_tokens(
                a,
                1,
                left,
                valued,
                digits,
            ));
        }
    }
}

/// Takes arguments apart.
pub fn lex_args(argv: &Vec<String>, valued: &[char], digits: bool) -> (r: Vec<ArgToken>)
    ensures
        toks(r@) == arg_tokens(strs(argv@), valued@, digits),
{
    let mut parser = parser_from_argv(argv);
    let mut out: Vec<ArgToken> = Vec::new();
    let ghost whole = arg_tokens(strs(argv@), valued@, digits);
    proof {
        assert(toks(out@) + whole =~= whole);
        if argv@.len() == 0 {
            assert(tokens(Seq::empty(), valued@, digits) =~= Seq::<Tok>::empty());
        }
    }
    loop
        invariant
            whole == arg_tokens(strs(argv@), valued@, digits),
            sound(parser_state(parser)),
            toks(out@) + tokens_at(parser_state(parser), valued@, digits) == whole,
        decreases size(parser_state(parser)),
    {
        let ghost before = out@;
        let ghost st = parser_state(parser);
        proof {
            lemma_step(st, valued@, digits);
        }
        let step = parser_next(&mut parser);
        match step {
            ArgStep::End | ArgStep::Fail => {
                proof {
                    assert(toks(out@) + Seq::<Tok>::empty() =~= toks(out@));
                }
                return out;
            },
            ArgStep::Long(s) => {
                out.push(ArgToken::Long(s));
            },
            ArgStep::Value(s) => {
                out.push(ArgToken::Value(s));
            },
            ArgStep::Short(c) => {
                if contains_char(valued, c) {
                    let v = parser_value(&mut parser);
                    out.push(ArgToken::Valued(c, v));
                } else if digits && char_is_digit(c) {
                    let mut text: Vec<char> = Vec::new();
                    text.push(c);
                    match parser_attached(&mut parser) {
                        Some(v) => {
                            let mut more = to_chars(v.as_str());
                            text.append(&mut more);
                        },
                        None => {},
                    }
                    let s = to_text(&text);
                    proof {
                        assert(text@ =~= seq![c] + text@.skip(1));
                        match next_attached(next_found(st).1).0 {
                            Some(v) => {
                                assert(s@ =~= seq![c] + v);
                            },
                            None => {
                                assert(s@ =~= seq![c]);
                            },
                        }
                    }
                    out.push(ArgToken::Digits(s));
                } else {
                    out.push(ArgToken::Short(c));
                }
            },
        }
        proof {
            let t = out@.last()@;
            assert(toks(out@) =~= toks(before) + seq![t]);
            let after = parser_state(parser);
            lemma_progress(st, valued@, digits, t, after);
            assert((toks(before) + seq![t]) + tokens_at(after, valued@, digits) =~= toks(before)
                + (seq![t] + tokens_at(after, valued@, digits)));
        }
    }
}

/// The token that is written down after a step and the place where the parser
/// stands then account for what was to be found.
proof fn lemma_progress(
    st: ParserState,
    valued: Seq<char>,
    digits: bool,
    t: Tok,
    after: ParserState,
)
    requires
        sound(st),
        ({
            let (found, mid) = next_found(st);
            match found {
                Found::Long(s) => t == Tok::Long(s) && after == mid,
                Found::Value(s) => t == Tok::Value(s) && after == mid,
                Found::Short(c) => if valued.contains(c) {
                    t == Tok::Valued(c, next_value(mid).0) && after == next_value(mid).1
                } else if digits && is_digit(c) {
                    after == next_attached(mid).1 && t == Tok::Digits(
                        match next_attached(mid).0 {
                            Some(v) => seq![c] + v,
                            None => seq![c],
                        },
                    )
                } else {
                    t == Tok::Short(c) && after == mid
                },
                _ => false,
            }
        }),
    ensures
        sound(after),
        0 <= size(after) < size(st),
        tokens_at(st, valued, digits) == seq![t] + tokens_at(after, valued, digits),
{
    lemma_step(st, valued, digits);
    let (found, mid) = next_found(st);
    if found is Short {
        let c = found->Short_0;
        match mid {
            ParserState::Cluster(a, k, rest) => {
                if valued.contains(c) {
                    if k >= a.len() && rest.len() == 0 {
                        assert(tokens(rest, valued, digits) =~= Seq::<Tok>::empty());
                        assert(seq![t] + Seq::<Tok>::empty() =~= seq![t]);
                    }
                }
            },
            _ => {},
        }
    }
}

// ---------------------------------------------------------------------------
// Reading tokens
// ---------------------------------------------------------------------------

/// Finds a short option.
pub fn has_short(ts: &Vec<ArgToken>, c: char) -> (r: bool)
    ensures
        r == toks(ts@).contains(Tok::Short(c)),
{
    let mut i: usize = 0;
    while i < ts.len()
        invariant
            i <= ts@.len(),
            forall|k: int| 0 <= k < i ==> toks(ts@)[k] != Tok::Short(c),
        decreases ts@.len() - i,
    {
        proof {
            assert(toks(ts@)[i as int] == ts@[i as int]@);
        }
        match &ts[i] {
            ArgToken::Short(d) => {
                if *d == c {
                    return true;
                }
            },
            _ => {},
        }
        i += 1;
    }
    proof {
        assert(toks(ts@).len() == ts@.len());
    }
    false
}

/// Finds a long option.
pub fn has_long(ts: &Vec<ArgToken>, name: &str) -> (r: bool)
    ensures
        r == toks(ts@).contains(Tok::Long(name@)),
{
    let mut i: usize = 0;
    while i < ts.len()
        invariant
            i <= ts@.len(),
            forall|k: int| 0 <= k < i ==> toks(ts@)[k] != Tok::Long(name@),
        decreases ts@.len() - i,
    {
        proof {
            assert(toks(ts@)[i as int] == ts@[i as int]@);
        }
        match &ts[i] {
            ArgToken::Long(s) => {
                if str_eq(s.as_str(), name) {
                    return true;
                }
            },
            _ => {},
        }
        i += 1;
    }
    proof {
        assert(toks(ts@).len() == ts@.len());
    }
    false
}

/// The arguments among the tokens from `i` on.
pub open spec fn values_from(ts: Seq<Tok>, i: int) -> Seq<Seq<char>>
    decreases ts.len() - i,
{
    if i < 0 || i >= ts.len() {
        Seq::empty()
    } else {
        match ts[i] {
            Tok::Value(s) => seq![s] + values_from(ts, i + 1),
            _ => values_from(ts, i + 1),
        }
    }
}

/// Collects the arguments.
pub fn values(ts: &Vec<ArgToken>) -> (r: Strings)
    ensures
        strings_of(r) == values_from(toks(ts@), 0),
{
    let mut out = Strings::new();
    let ghost all = toks(ts@);
    let mut i: usize = 0;
    proof {
        assert(strings_of(out) + values_from(all, 0) =~= values_from(all, 0));
    }
    while i < ts.len()
        invariant
            all == toks(ts@),
            i <= ts@.len(),
            strings_of(out) + values_from(all, i as int) == values_from(all, 0),
        decreases ts@.len() - i,
    {
        proof {
            assert(all[i as int] == ts@[i as int]@);
        }
        let ghost before = strings_of(out);
        match &ts[i] {
            ArgToken::Value(s) => {
                out.push(s.clone());
                proof {
                    assert(strings_of(out) + values_from(all, i + 1) =~= before + values_from(
                        all,
                        i as int,
                    ));
                }
            },
            _ => {},
        }
        i += 1;
    }
    proof {
        assert(strings_of(out) =~= values_from(all, 0));
    }
    out
}

/// The value that is given last to one of the short options `cs`, among the first
/// `n` tokens.
pub open spec fn last_valued(ts: Seq<Tok>, cs: Seq<char>, n: int) -> Option<Seq<char>>
    decreases n,
{
    if n <= 0 || n > ts.len() {
        None
    } else {
        match ts[n - 1] {
            Tok::Valued(c, Some(v)) => if cs.contains(c) {
                Some(v)
            } else {
                last_valued(ts, cs, n - 1)
            },
            _ => last_valued(ts, cs, n - 1),
        }
    }
}

/// Finds the value that is given last to one of the short options `cs`.
pub fn last_value(ts: &Vec<ArgToken>, cs: &[char]) -> (r: Option<String>)
    ensures
        match r {
            Some(s) => last_valued(toks(ts@), cs@, ts@.len() as int) == Some(s@),
            None => last_valued(toks(ts@), cs@, ts@.len() as int) is None,
        },
{
    let ghost all = toks(ts@);
    let mut n: usize = ts.len();
    while n > 0
        invariant
            all == toks(ts@),
            all.len() == ts@.len(),
            n <= ts@.len(),
            last_valued(all, cs@, ts@.len() as int) == last_valued(all, cs@, n as int),
        decreases n,
    {
        proof {
            assert(all[n - 1] == ts@[n - 1]@);
        }
        match &ts[n - 1] {
            ArgToken::Valued(c, Some(v)) => {
                if contains_char(cs, *c) {
                    return Some(v.clone());
                }
            },
            _ => {},
        }
        n -= 1;
    }
    None
}

/// The number that a token gives to the option `c`; with `digits`, a number behind
/// `-` counts too.
pub open spec fn number_of(t: Tok, c: char, digits: bool) -> Option<nat> {
    match t {
        Tok::Valued(d, Some(v)) => if d == c {
            read_usize(v)
        } else {
            None
        },
        Tok::Digits(s) => if digits {
            read_usize(s)
        } else {
            None
        },
        _ => None,
    }
}

/// The number that is given last to the option `c` among the first `n` tokens.
pub open spec fn last_number(ts: Seq<Tok>, c: char, digits: bool, n: int) -> Option<nat>
    decreases n,
{
    if n <= 0 || n > ts.len() {
        None
    } else if number_of(ts[n - 1], c, digits) is Some {
        number_of(ts[n - 1], c, digits)
    } else {
        last_number(ts, c, digits, n - 1)
    }
}

/// Finds the number that is given last to the option `c`.
pub fn last_count(ts: &Vec<ArgToken>, c: char, digits: bool) -> (r: Option<usize>)
    ensures
        match r {
            Some(n) => last_number(toks(ts@), c, digits, ts@.len() as int) == Some(n as nat),
            None => last_number(toks(ts@), c, digits, ts@.len() as int) is None,
        },
{
    let ghost all = toks(ts@);
    let mut n: usize = ts.len();
    while n > 0
        invariant
            all == toks(ts@),
            all.len() == ts@.len(),
            n <= ts@.len(),
            last_number(all, c, digits, ts@.len() as int) == last_number(all, c, digits, n as int),
        decreases n,
    {
        proof {
            assert(all[n - 1] == ts@[n - 1]@);
        }
        let number = match &ts[n - 1] {
            ArgToken::Valued(d, Some(v)) => {
                if *d == c {
                    let cs = to_chars(v.as_str());
                    parse_usize(&cs)
                } else {
                    None
                }
            },
            ArgToken::Digits(s) => {
                if digits {
                    let cs = to_chars(s.as_str());
                    parse_usize(&cs)
                } else {
                    None
                }
            },
            _ => None,
        };
        if number.is_some() {
            return number;
        }
        n -= 1;
    }
    None
}

proof fn lemma_values_grow(ts: Seq<Tok>, t: Tok, i: int)
    requires
        0 <= i <= ts.len(),
    ensures
        values_from(ts.push(t), i) == match t {
            Tok::Value(s) => values_from(ts, i).push(s),
            _ => values_from(ts, i),
        },
    decreases ts.len() - i,
{
    let all = ts.push(t);
    reveal_with_fuel(values_from, 2);
    let grown = match t {
        Tok::Value(s) => values_from(ts, i).push(s),
        _ => values_from(ts, i),
    };
    if i < ts.len() {
        assert(all[i] == ts[i]);
        lemma_values_grow(ts, t, i + 1);
        assert(values_from(all, i) =~= grown);
    } else {
        assert(all[i] == t);
        assert(values_from(all, i) =~= grown);
    }
}

/// The arguments of a command are those that it finds besides its options, in their order.
pub proof fn law_arguments_keep_their_order(ts: Seq<Tok>, t: Tok, s: Seq<char>)
    ensures
        values_from(Seq::empty(), 0).len() == 0,
        values_from(ts.push(Tok::Value(s)), 0) == values_from(ts, 0).push(s),
        !(t is Value) ==> values_from(ts.push(t), 0) == values_from(ts, 0),
{
    lemma_values_grow(ts, Tok::Value(s), 0);
    lemma_values_grow(ts, t, 0);
}

proof fn lemma_valued_same(ts: Seq<Tok>, t: Tok, cs: Seq<char>, n: int)
    requires
        n <= ts.len(),
    ensures
        last_valued(ts.push(t), cs, n) == last_valued(ts, cs, n),
    decreases n,
{
    if n > 0 {
        assert(ts.push(t)[n - 1] == ts[n - 1]);
        lemma_valued_same(ts, t, cs, n - 1);
    }
}

/// The value of an option is the one that is given last.
pub proof fn law_last_value_counts(ts: Seq<Tok>, t: Tok, cs: Seq<char>, c: char, v: Seq<char>)
    ensures
        last_valued(Seq::empty(), cs, 0) is None,
        cs.contains(c) ==> last_valued(
            ts.push(Tok::Valued(c, Some(v))),
            cs,
            ts.len() as int + 1,
        ) == Some(v),
        !cs.contains(c) ==> last_valued(
            ts.push(Tok::Valued(c, Some(v))),
            cs,
            ts.len() as int + 1,
        ) == last_valued(ts, cs, ts.len() as int),
        !(t is Valued) ==> last_valued(ts.push(t), cs, ts.len() as int + 1) == last_valued(
            ts,
            cs,
            ts.len() as int,
        ),
{
    lemma_valued_same(ts, Tok::Valued(c, Some(v)), cs, ts.len() as int);
    lemma_valued_same(ts, t, cs, ts.len() as int);
}

proof fn lemma_number_same(ts: Seq<Tok>, t: Tok, c: char, digits: bool, n: int)
    requires
        n <= ts.len(),
    ensures
        last_number(ts.push(t), c, digits, n) == last_number(ts, c, digits, n),
    decreases n,
{
    if n > 0 {
        assert(ts.push(t)[n - 1] == ts[n - 1]);
        lemma_number_same(ts, t, c, digits, n - 1);
    }
}

/// The number of an option is the one that is given last, behind the option or, where that
/// is a way to give it, behind a dash alone.
pub proof fn law_last_number_counts(ts: Seq<Tok>, t: Tok, c: char, digits: bool, n: usize)
    ensures
        last_number(Seq::empty(), c, digits, 0) is None,
        last_number(
            ts.push(Tok::Valued(c, Some(decimal(n as nat)))),
            c,
            digits,
            ts.len() as int + 1,
        ) == Some(n as nat),
        last_number(ts.push(Tok::Digits(decimal(n as nat))), c, true, ts.len() as int + 1) == Some(
            n as nat,
        ),
        t is Short || t is Long || t is Value || (t is Digits && !digits) || (t matches Tok::Valued(
            d,
            _,
        ) && d != c) ==> last_number(ts.push(t), c, digits, ts.len() as int + 1) == last_number(
            ts,
            c,
            digits,
            ts.len() as int,
        ),
{
    law_decimal_is_read(n as nat, 'x', Seq::empty());
    lemma_number_same(ts, t, c, digits, ts.len() as int);
}

/// An argument that a dash does not start is found as it is; behind `--` every argument is.
pub proof fn law_plain_arguments(
    a: Seq<char>,
    rest: Seq<Seq<char>>,
    valued: Seq<char>,
    digits: bool,
)
    requires
        a.len() == 0 || a[0] != '-' || a.len() == 1,
    ensures
        tokens(seq![a] + rest, valued, digits) == seq![Tok::Value(a)] + tokens(
            rest,
            valued,
            digits,
        ),
        tokens(seq![seq!['-', '-']] + rest, valued, digits) == rest.map_values(
            |v: Seq<char>| Tok::Value(v),
        ),
{
    let all = seq![a] + rest;
    assert(all.skip(1) =~= rest);
    assert(all[0] == a);
    if a.len() >= 2 {
        assert(a.take(2)[0] == a[0]);
        assert(!starts_with(a, seq!['-', '-']));
    }
    assert(a != seq!['-', '-']);
    let end = seq![seq!['-', '-']] + rest;
    assert(end.skip(1) =~= rest);
    assert(end[0] == seq!['-', '-']);
}

/// The value of an option can follow it in the same argument, behind `=` in the same
/// argument, or in the next one.
pub proof fn law_three_ways_to_give_a_value(
    c: char,
    v: Seq<char>,
    rest: Seq<Seq<char>>,
    valued: Seq<char>,
    digits: bool,
)
    requires
        valued.contains(c),
        c != '-',
        v.len() > 0,
        v[0] != '=',
    ensures
        tokens(seq![seq!['-', c] + v] + rest, valued, digits) == seq![Tok::Valued(c, Some(v))]
            + tokens(rest, valued, digits),
        tokens(seq![seq!['-', c, '='] + v] + rest, valued, digits) == seq![
            Tok::Valued(c, Some(v)),
        ] + tokens(rest, valued, digits),
        tokens(seq![seq!['-', c], v] + rest, valued, digits) == seq![Tok::Valued(c, Some(v))]
            + tokens(rest, valued, digits),
{
    let x = seq!['-', c] + v;
    let y = seq!['-', c, '='] + v;
    let z = seq!['-', c];
    lemma_short(x, c);
    lemma_short(y, c);
    lemma_short(z, c);
    assert((seq![x] + rest).skip(1) =~= rest);
    assert((seq![y] + rest).skip(1) =~= rest);
    assert((seq![z, v] + rest).skip(1) =~= seq![v] + rest);
    assert((seq![v] + rest).skip(1) =~= rest);
    assert(x[2] == v[0]);
    assert(x.skip(2) =~= v);
    assert(y[2] == '=');
    assert(y.skip(3) =~= v);
    assert((seq![x] + rest)[0] == x);
    assert((seq![y] + rest)[0] == y);
    assert((seq![z, v] + rest)[0] == z);
    assert((seq![v] + rest)[0] == v);
    lemma_opens(x, c, rest, valued, digits);
    lemma_opens(y, c, rest, valued, digits);
    lemma_opens(z, c, seq![v] + rest, valued, digits);
    assert(seq![z] + (seq![v] + rest) =~= seq![z, v] + rest);
    reveal_with_fuel(option_tokens, 2);
}

proof fn lemma_opens(
    a: Seq<char>,
    c: char,
    rest: Seq<Seq<char>>,
    valued: Seq<char>,
    digits: bool,
)
    requires
        a.len() > 1 && a[0] == '-' && a[1] == c,
        c != '-',
    ensures
        tokens(seq![a] + rest, valued, digits) == option_tokens(a, 1, rest, valued, digits),
{
    let all = seq![a] + rest;
    lemma_short(a, c);
    assert(all.skip(1) =~= rest);
    assert(all[0] == a);
    reveal_with_fuel(tokens, 3);
    reveal_with_fuel(cluster_tokens, 3);
    assert(tokens(all, valued, digits) == cluster_tokens(a, 1, rest, valued, digits));
}

proof fn lemma_short(a: Seq<char>, c: char)
    requires
        a.len() > 1 && a[0] == '-' && a[1] == c,
        c != '-',
    ensures
        a != seq!['-', '-'],
        !starts_with(a, seq!['-', '-']),
{
    assert(seq!['-', '-'][1] == '-');
    assert(a.take(2)[1] == a[1]);
}

/// Short options without values can stand behind one dash or each behind its own.
pub proof fn law_short_options_in_a_row(
    c: char,
    d: char,
    rest: Seq<Seq<char>>,
    valued: Seq<char>,
    digits: bool,
)
    requires
        !valued.contains(c) && !valued.contains(d),
        !is_digit(c) && !is_digit(d),
        c != '-' && d != '-' && d != '=',
    ensures
        tokens(seq![seq!['-', c]] + rest, valued, digits) == seq![Tok::Short(c)] + tokens(
            rest,
            valued,
            digits,
        ),
        tokens(seq![seq!['-', c, d]] + rest, valued, digits) == seq![Tok::Short(c), Tok::Short(d)]
            + tokens(rest, valued, digits),
{
    let x = seq!['-', c];
    let y = seq!['-', c, d];
    lemma_short(x, c);
    lemma_short(y, c);
    assert((seq![x] + rest).skip(1) =~= rest);
    assert((seq![y] + rest).skip(1) =~= rest);
    assert((seq![x] + rest)[0] == x);
    assert((seq![y] + rest)[0] == y);
    reveal_with_fuel(option_tokens, 2);
    reveal_with_fuel(cluster_tokens, 2);
    lemma_opens(x, c, rest, valued, digits);
    assert(cluster_tokens(x, 2, rest, valued, digits) == tokens(rest, valued, digits));
    lemma_opens(y, c, rest, valued, digits);
    assert(cluster_tokens(y, 3, rest, valued, digits) == tokens(rest, valued, digits));
    assert(cluster_tokens(y, 2, rest, valued, digits) == option_tokens(y, 2, rest, valued, digits));
    assert(seq![Tok::Short(c)] + (seq![Tok::Short(d)] + tokens(rest, valued, digits)) =~= seq![
        Tok::Short(c),
        Tok::Short(d),
    ] + tokens(rest, valued, digits));
}

/// A number behind a dash is found as one.
pub proof fn law_numbers_behind_a_dash(
    n: nat,
    rest: Seq<Seq<char>>,
    valued: Seq<char>,
)
    requires
        forall|k: int| 0 <= k < valued.len() ==> !is_digit(#[trigger] valued[k]),
    ensures
        tokens(seq![seq!['-'] + decimal(n)] + rest, valued, true) == seq![Tok::Digits(decimal(n))]
            + tokens(rest, valued, true),
{
    lemma_decimal_reads_back(n);
    let d = decimal(n);
    let a = seq!['-'] + d;
    assert(is_digit(d[0]));
    assert(a[1] == d[0]);
    lemma_short(a, d[0]);
    assert((seq![a] + rest).skip(1) =~= rest);
    assert((seq![a] + rest)[0] == a);
    assert(!valued.contains(d[0]));
    if d.len() > 1 {
        assert(is_digit(d[1]));
        assert(a[2] == d[1]);
        assert(seq![d[0]] + a.skip(2) =~= d);
    } else {
        assert(seq![d[0]] =~= d);
    }
    reveal_with_fuel(option_tokens, 2);
    lemma_opens(a, d[0], rest, valued, true);
}

} // verus!
