//! Glob patterns.
//!
//! - `*` matches any sequence of characters, also the empty one
//! - `?` matches exactly one character
//! - `[abc]` matches one character of the set
//! - `[a-z]` matches one character of the range
//! - `[!abc]` and `[^abc]` match one character outside the set
use vstd::prelude::*;
use crate::fs::{lemma_node_names, DirEntry, Node, Snapshot};
use crate::order::{lemma_sorted_once, sort_strings, sorted};
use crate::path::{child, child_path, names};
use crate::text::{
    chars_at, lemma_strs_push, rows, split, split_chars, starts_with, str_eq, strs, text_part,
    to_chars, to_text,
};

verus! {

/// Whether an unescaped wildcard stands at position `i` or behind it.
pub open spec fn wildcard_from(s: Seq<char>, i: int) -> bool
    decreases s.len() + 1 - i,
{
    if i < 0 || i >= s.len() {
        false
    } else if s[i] == '\\' {
        wildcard_from(s, i + 2)
    } else if s[i] == '*' || s[i] == '?' || (s[i] == '[' && i + 1 < s.len()) {
        true
    } else {
        wildcard_from(s, i + 1)
    }
}

/// Tests whether a text holds a wildcard.
pub fn is_glob_pattern(s: &str) -> (r: bool)
    ensures
        r == wildcard_from(s@, 0),
{
    let cs = to_chars(s);
    let mut i: usize = 0;
    while i < cs.len()
        invariant
            cs@ == s@,
            i <= cs@.len(),
            wildcard_from(s@, i as int) == wildcard_from(s@, 0),
        decreases cs@.len() - i,
    {
        if cs[i] == '\\' {
            if i + 1 >= cs.len() {
                assert(!wildcard_from(s@, i + 2));
                return false;
            }
            i += 2;
        } else if cs[i] == '*' || cs[i] == '?' || (cs[i] == '[' && i + 1 < cs.len()) {
            return true;
        } else {
            i += 1;
        }
    }
    false
}

// ---------------------------------------------------------------------------
// Bracket expressions
// ---------------------------------------------------------------------------

/// Whether the item of a bracket expression at `i` is a range such as `a-z`.
pub open spec fn is_range(p: Seq<char>, i: int) -> bool {
    i + 2 < p.len() && p[i + 1] == '-' && p[i + 2] != ']'
}

pub open spec fn item_width(p: Seq<char>, i: int) -> int {
    if is_range(p, i) {
        3
    } else {
        1
    }
}

pub open spec fn item_holds(p: Seq<char>, i: int, ch: char) -> bool {
    if is_range(p, i) {
        p[i] <= ch <= p[i + 2]
    } else {
        p[i] == ch
    }
}

/// Where the items that start at `i` end: at a `]`, or at the end of the pattern.
pub open spec fn items_end(p: Seq<char>, i: int) -> int
    decreases p.len() - i,
{
    if i < 0 || i >= p.len() || p[i] == ']' {
        i
    } else {
        items_end(p, i + item_width(p, i))
    }
}

/// Whether one of the items that start at `i` holds `ch`.
pub open spec fn items_hold(p: Seq<char>, i: int, ch: char) -> bool
    decreases p.len() - i,
{
    if i < 0 || i >= p.len() || p[i] == ']' {
        false
    } else {
        item_holds(p, i, ch) || items_hold(p, i + item_width(p, i), ch)
    }
}

pub open spec fn bracket_negated(p: Seq<char>, at: int) -> bool {
    at + 1 < p.len() && (p[at + 1] == '!' || p[at + 1] == '^')
}

/// Where the first item of the bracket expression at `at` stands.
pub open spec fn bracket_first(p: Seq<char>, at: int) -> int {
    if bracket_negated(p, at) {
        at + 2
    } else {
        at + 1
    }
}

/// Whether the first item is a literal `]`.
pub open spec fn bracket_leads(p: Seq<char>, at: int) -> bool {
    bracket_first(p, at) < p.len() && p[bracket_first(p, at)] == ']'
}

pub open spec fn bracket_rest(p: Seq<char>, at: int) -> int {
    if bracket_leads(p, at) {
        bracket_first(p, at) + 1
    } else {
        bracket_first(p, at)
    }
}

/// The position of the `]` that closes the bracket expression at `at`; the
/// pattern's length or more where nothing closes it.
pub open spec fn bracket_end(p: Seq<char>, at: int) -> int {
    items_end(p, bracket_rest(p, at))
}

/// Whether the bracket expression at `at` accepts `ch`.
pub open spec fn bracket_accepts(p: Seq<char>, at: int, ch: char) -> bool {
    ((bracket_leads(p, at) && ch == ']') || items_hold(p, bracket_rest(p, at), ch))
        != bracket_negated(p, at)
}

proof fn lemma_items_end(p: Seq<char>, i: int)
    requires
        0 <= i <= p.len(),
    ensures
        i <= items_end(p, i) <= p.len(),
        items_end(p, i) < p.len() ==> p[items_end(p, i)] == ']',
    decreases p.len() - i,
{
    if i < p.len() && p[i] != ']' {
        lemma_items_end(p, i + item_width(p, i));
    }
}

/// Whether a closed bracket expression stands at `at`.
pub open spec fn is_bracket(p: Seq<char>, at: int) -> bool {
    0 <= at < p.len() && p[at] == '[' && bracket_end(p, at) < p.len()
}

/// Matches the bracket expression at `at` against a character: whether it accepts the
/// character, and where the pattern goes on. Nothing where there is none, or where it
/// is not closed.
pub fn match_bracket(pattern: &[char], at: usize, ch: char) -> (r: Option<(bool, usize)>)
    ensures
        match r {
            Some((matched, next)) => is_bracket(pattern@, at as int) && matched
                == bracket_accepts(pattern@, at as int, ch) && next == bracket_end(
                pattern@,
                at as int,
            ) + 1,
            None => !is_bracket(pattern@, at as int),
        },
{
    if at >= pattern.len() || pattern[at] != '[' {
        return None;
    }
    let ghost p = pattern@;
    let n = pattern.len();
    let mut i: usize = at + 1;
    let negate = i < n && (pattern[i] == '!' || pattern[i] == '^');
    if negate {
        i += 1;
    }
    let mut matched = false;
    if i < n && pattern[i] == ']' {
        if ch == ']' {
            matched = true;
        }
        i += 1;
    }
    let ghost held = matched || items_hold(p, i as int, ch);
    proof {
        lemma_items_end(p, i as int);
    }
    while i < n && pattern[i] != ']'
        invariant
            p == pattern@,
            n == p.len(),
            i <= n,
            items_end(p, i as int) == bracket_end(p, at as int),
            (matched || items_hold(p, i as int, ch)) == held,
        decreases n - i,
    {
        if n - i > 2 && pattern[i + 1] == '-' && pattern[i + 2] != ']' {
            let start = pattern[i];
            let end = pattern[i + 2];
            if ch >= start && ch <= end {
                matched = true;
            }
            i += 3;
        } else {
            if pattern[i] == ch {
                matched = true;
            }
            i += 1;
        }
    }
    if i < n && pattern[i] == ']' {
        Some((matched != negate, i + 1))
    } else {
        None
    }
}

// ---------------------------------------------------------------------------
// Matching
// ---------------------------------------------------------------------------

/// Where the pattern goes on when its element at `pi`, which is not a `*`, takes
/// the character `ch`; nothing where it does not. A backslash before a character
/// stands for that character.
pub open spec fn element(p: Seq<char>, pi: int, ch: char) -> Option<int> {
    if p[pi] == '\\' && pi + 1 < p.len() {
        if ch == p[pi + 1] {
            Some(pi + 2)
        } else {
            None
        }
    } else if p[pi] == '?' {
        Some(pi + 1)
    } else if p[pi] == '[' {
        if bracket_end(p, pi) < p.len() && bracket_accepts(p, pi, ch) {
            Some(bracket_end(p, pi) + 1)
        } else {
            None
        }
    } else if p[pi] == ch {
        Some(pi + 1)
    } else {
        None
    }
}

/// Whether the pattern from `pi` on matches the text from `ti` on.
pub open spec fn matches_from(p: Seq<char>, pi: int, t: Seq<char>, ti: int) -> bool
    decreases (p.len() - pi) + (t.len() - ti),
{
    if pi < 0 || ti < 0 || pi > p.len() || ti > t.len() {
        false
    } else if pi == p.len() {
        ti == t.len()
    } else if p[pi] == '*' {
        matches_from(p, pi + 1, t, ti) || (ti < t.len() && matches_from(p, pi, t, ti + 1))
    } else if ti == t.len() {
        false
    } else {
        match element(p, pi, t[ti]) {
            Some(next) => pi < next && matches_from(p, next, t, ti + 1),
            None => false,
        }
    }
}

/// Whether the pattern from `pi` on is made of `*` alone.
spec fn only_stars(p: Seq<char>, pi: int) -> bool {
    forall|k: int| pi <= k < p.len() ==> p[k] == '*'
}

/// The search that returns to the last `*` alone: it goes on at `pi` in the
/// pattern and at `ti` in the text, and where an element does not match it lets
/// the last `*`, which stands before `star.0`, take one more character from `star.1`.
spec fn search(p: Seq<char>, pi: int, t: Seq<char>, ti: int, star: Option<(int, int)>) -> bool
    decreases
            (match star {
                Some((_, k)) => t.len() + 1 - k,
                None => (t.len() + 2) as int,
            }),
            t.len() - ti,
            p.len() - pi,
{
    let back = match star {
        Some((s, k)) => 0 <= k < t.len() && search(p, s, t, k + 1, Some((s, k + 1))),
        None => false,
    };
    if ti < 0 || pi < 0 || pi > p.len() || (star matches Some((_, k)) && !(0 <= k <= ti)) {
        false
    } else if ti >= t.len() {
        only_stars(p, pi)
    } else if pi < p.len() && p[pi] == '*' {
        search(p, pi + 1, t, ti, Some((pi + 1, ti)))
    } else if pi < p.len() {
        match element(p, pi, t[ti]) {
            Some(next) => search(p, next, t, ti + 1, star),
            None => back,
        }
    } else {
        back
    }
}

/// Whether a pattern matches a whole text.
pub open spec fn glob_matches(p: Seq<char>, t: Seq<char>) -> bool {
    matches_from(p, 0, t, 0)
}

proof fn lemma_element_bounds(p: Seq<char>, pi: int, ch: char)
    requires
        0 <= pi < p.len(),
    ensures
        element(p, pi, ch) matches Some(next) ==> pi < next <= p.len(),
{
    if p[pi] == '[' {
        if bracket_rest(p, pi) <= p.len() {
            lemma_items_end(p, bracket_rest(p, pi));
        }
    }
}

proof fn lemma_star_absorbs(p: Seq<char>, pi: int, t: Seq<char>, ti: int, k: int)
    requires
        0 <= pi < p.len(),
        p[pi] == '*',
        0 <= ti <= k <= t.len(),
        matches_from(p, pi + 1, t, k),
    ensures
        matches_from(p, pi, t, ti),
    decreases k - ti,
{
    if ti < k {
        lemma_star_absorbs(p, pi, t, ti + 1, k);
    }
}

proof fn lemma_star_releases(p: Seq<char>, pi: int, t: Seq<char>, ti: int) -> (k: int)
    requires
        0 <= pi < p.len(),
        p[pi] == '*',
        0 <= ti <= t.len(),
        matches_from(p, pi, t, ti),
    ensures
        ti <= k <= t.len(),
        matches_from(p, pi + 1, t, k),
    decreases t.len() - ti,
{
    if matches_from(p, pi + 1, t, ti) {
        ti
    } else {
        lemma_star_releases(p, pi, t, ti + 1)
    }
}

proof fn lemma_stars_match_nothing(p: Seq<char>, pi: int, t: Seq<char>)
    requires
        0 <= pi <= p.len(),
    ensures
        matches_from(p, pi, t, t.len() as int) == only_stars(p, pi),
    decreases p.len() - pi,
{
    if pi < p.len() {
        lemma_stars_match_nothing(p, pi + 1, t);
        assert(only_stars(p, pi) == (p[pi] == '*' && only_stars(p, pi + 1)));
    }
}

/// What the search finds is a match: of what is left, or of what is left behind
/// the last `*` after it has taken more.
proof fn lemma_search_sound(p: Seq<char>, pi: int, t: Seq<char>, ti: int, star: Option<(int, int)>)
    requires
        0 <= pi <= p.len(),
        0 <= ti <= t.len(),
        star matches Some((s, k)) ==> 0 <= s <= p.len() && 0 <= k <= ti,
        search(p, pi, t, ti, star),
    ensures
        matches_from(p, pi, t, ti) || (star matches Some((s, k)) && exists|m: int|
            k < m <= t.len() && #[trigger] matches_from(p, s, t, m)),
    decreases
            (match star {
                Some((_, k)) => t.len() + 1 - k,
                None => (t.len() + 2) as int,
            }),
            t.len() - ti,
            p.len() - pi,
{
    if ti >= t.len() {
        lemma_stars_match_nothing(p, pi, t);
    } else if pi < p.len() && p[pi] == '*' {
        lemma_search_sound(p, pi + 1, t, ti, Some((pi + 1, ti)));
        if !matches_from(p, pi + 1, t, ti) {
            let m = choose|m: int| ti < m <= t.len() && #[trigger] matches_from(p, pi + 1, t, m);
            lemma_star_absorbs(p, pi, t, ti, m);
        }
    } else if pi < p.len() && element(p, pi, t[ti]) is Some {
        let next = element(p, pi, t[ti])->0;
        lemma_element_bounds(p, pi, t[ti]);
        lemma_search_sound(p, next, t, ti + 1, star);
    } else {
        let (s, k) = star->0;
        lemma_search_sound(p, s, t, k + 1, Some((s, k + 1)));
    }
}

/// Whether `n` elements, none of them a `*`, lead from `s` to `pi`.
spec fn leads(p: Seq<char>, s: int, n: int, pi: int) -> bool
    decreases n,
{
    if n <= 0 {
        n == 0 && s == pi
    } else {
        0 <= s < p.len() && p[s] != '*' && exists|ch: char|
            (#[trigger] element(p, s, ch) matches Some(next) && leads(p, next, n - 1, pi))
    }
}

proof fn lemma_leads_on(p: Seq<char>, s: int, n: int, pi: int, ch: char)
    requires
        leads(p, s, n, pi),
        0 <= pi < p.len(),
        p[pi] != '*',
        element(p, pi, ch) is Some,
    ensures
        leads(p, s, n + 1, element(p, pi, ch)->0),
    decreases n,
{
    reveal_with_fuel(leads, 2);
    if n > 0 {
        let c = choose|c: char|
            (#[trigger] element(p, s, c) matches Some(next) && leads(p, next, n - 1, pi));
        lemma_leads_on(p, element(p, s, c)->0, n - 1, pi, ch);
        assert(element(p, s, c) matches Some(next) && leads(p, next, n, element(p, pi, ch)->0));
    } else {
        assert(element(p, s, ch) matches Some(next) && leads(p, next, 0, element(p, pi, ch)->0));
    }
}

/// A match that starts at `s` runs through every position that elements lead to.
proof fn lemma_match_passes(p: Seq<char>, s: int, n: int, pi: int, t: Seq<char>, ti: int)
    requires
        leads(p, s, n, pi),
        0 <= ti <= t.len(),
        matches_from(p, s, t, ti),
    ensures
        ti + n <= t.len(),
        matches_from(p, pi, t, ti + n),
    decreases n,
{
    if n > 0 {
        let c = choose|c: char|
            (#[trigger] element(p, s, c) matches Some(next) && leads(p, next, n - 1, pi));
        assert(element(p, s, c)->0 == element(p, s, t[ti])->0);
        lemma_match_passes(p, element(p, s, t[ti])->0, n - 1, pi, t, ti + 1);
    }
}

/// Where the search fails nothing matches: the width of an element does not depend on
/// what it takes.
proof fn lemma_search_complete(p: Seq<char>, pi: int, t: Seq<char>, ti: int, star: Option<(int, int)>)
    requires
        0 <= pi <= p.len(),
        0 <= ti <= t.len(),
        star matches Some((s, k)) ==> 0 <= s <= p.len() && 0 <= k <= ti && leads(p, s, ti - k, pi),
        !search(p, pi, t, ti, star),
    ensures
        !matches_from(p, pi, t, ti),
        star matches Some((s, k)) ==> forall|m: int|
            k < m <= t.len() ==> !#[trigger] matches_from(p, s, t, m),
    decreases
            (match star {
                Some((_, k)) => t.len() + 1 - k,
                None => (t.len() + 2) as int,
            }),
            t.len() - ti,
            p.len() - pi,
{
    if ti >= t.len() {
        lemma_stars_match_nothing(p, pi, t);
        if star is Some {
            let (s, k) = star->0;
            assert forall|m: int| k < m <= t.len() implies !#[trigger] matches_from(p, s, t, m) by {
                if matches_from(p, s, t, m) {
                    lemma_match_passes(p, s, ti - k, pi, t, m);
                }
            }
        }
    } else if pi < p.len() && p[pi] == '*' {
        assert(leads(p, pi + 1, 0, pi + 1));
        let behind = pi + 1;
        lemma_search_complete(p, behind, t, ti, Some((behind, ti)));
        assert(!matches_from(p, behind, t, ti));
        assert(forall|m: int| ti < m <= t.len() ==> !#[trigger] matches_from(p, behind, t, m));
        if matches_from(p, pi, t, ti) {
            let m = lemma_star_releases(p, pi, t, ti);
            assert(matches_from(p, pi + 1, t, m));
        }
        if star is Some {
            let (s, k) = star->0;
            assert forall|m: int| k < m <= t.len() implies !#[trigger] matches_from(p, s, t, m) by {
                if matches_from(p, s, t, m) {
                    lemma_match_passes(p, s, ti - k, pi, t, m);
                    let e = lemma_star_releases(p, pi, t, m + (ti - k));
                    assert(matches_from(p, pi + 1, t, e));
                }
            }
        }
    } else if pi < p.len() && element(p, pi, t[ti]) is Some {
        let next = element(p, pi, t[ti])->0;
        lemma_element_bounds(p, pi, t[ti]);
        if star is Some {
            let (s, k) = star->0;
            lemma_leads_on(p, s, ti - k, pi, t[ti]);
        }
        lemma_search_complete(p, next, t, ti + 1, star);
    } else if star is Some {
        let (s, k) = star->0;
        assert(leads(p, s, 0, s));
        let from = k + 1;
        let further: Option<(int, int)> = Some((s, from));
        lemma_search_complete(p, s, t, from, further);
        assert(!matches_from(p, s, t, from));
        assert(further matches Some((a, b)) && a == s && b == from);
        assert(forall|m: int| from < m <= t.len() ==> !#[trigger] matches_from(p, s, t, m));
        assert forall|m: int| k < m <= t.len() implies !#[trigger] matches_from(p, s, t, m) by {
            if m == from {
                assert(!matches_from(p, s, t, from));
            }
        }
    }
}

/// Tests whether a pattern matches a whole text.
pub fn glob_match(pattern: &str, text: &str) -> (r: bool)
    ensures
        r == glob_matches(pattern@, text@),
{
    let p = to_chars(pattern);
    let t = to_chars(text);
    let r = glob_match_impl(&p, &t);
    proof {
        lemma_search(p@, t@);
    }
    r
}

proof fn lemma_search(p: Seq<char>, t: Seq<char>)
    ensures
        search(p, 0, t, 0, None) == glob_matches(p, t),
{
    if search(p, 0, t, 0, None) {
        lemma_search_sound(p, 0, t, 0, None);
    } else {
        lemma_search_complete(p, 0, t, 0, None);
    }
}

fn glob_match_impl(pattern: &[char], text: &[char]) -> (r: bool)
    ensures
        r == search(pattern@, 0, text@, 0, None),
{
    let ghost p = pattern@;
    let ghost t = text@;
    let mut pi: usize = 0;
    let mut ti: usize = 0;
    let mut star: Option<(usize, usize)> = None;
    let ghost mut gstar: Option<(int, int)> = None;
    while ti < text.len()
        invariant
            p == pattern@,
            t == text@,
            pattern.len() == p.len(),
            text.len() == t.len(),
            pi <= p.len(),
            ti <= t.len(),
            match star {
                Some((s, k)) => gstar == Some((s as int, k as int)) && s <= p.len() && k <= ti,
                None => gstar == None::<(int, int)>,
            },
            search(p, pi as int, t, ti as int, gstar) == search(p, 0, t, 0, None),
        decreases
                (match gstar {
                    Some((_, k)) => t.len() + 1 - k,
                    None => (t.len() + 2) as int,
                }),
                t.len() - ti,
                p.len() - pi,
    {
        let c = text[ti];
        let mut next: Option<usize> = None;
        if pi < pattern.len() {
            proof {
                lemma_element_bounds(p, pi as int, c);
            }
            if pattern[pi] == '*' {
                pi += 1;
                star = Some((pi, ti));
                proof {
                    gstar = Some((pi as int, ti as int));
                }
                continue ;
            }
            if pattern[pi] == '\\' && pi + 1 < pattern.len() {
                if c == pattern[pi + 1] {
                    next = Some(pi + 2);
                }
            } else if pattern[pi] == '?' {
                next = Some(pi + 1);
            } else if pattern[pi] == '[' {
                match match_bracket(pattern, pi, c) {
                    Some((matched, end)) => {
                        if matched {
                            next = Some(end);
                        }
                    },
                    None => {},
                }
            } else if pattern[pi] == c {
                next = Some(pi + 1);
            }
        }
        match next {
            Some(n) => {
                pi = n;
                ti += 1;
            },
            None => {
                match star {
                    Some((s, k)) => {
                        pi = s;
                        ti = k + 1;
                        star = Some((s, k + 1));
                        proof {
                            gstar = Some((s as int, k + 1));
                        }
                    },
                    None => {
                        return false;
                    },
                }
            },
        }
    }
    let ghost start = pi as int;
    while pi < pattern.len() && pattern[pi] == '*'
        invariant
            p == pattern@,
            pattern.len() == p.len(),
            start <= pi <= p.len(),
            only_stars(p, start) == only_stars(p, pi as int),
        decreases p.len() - pi,
    {
        pi += 1;
        proof {
            assert(only_stars(p, pi - 1) == only_stars(p, pi as int));
        }
    }
    pi == pattern.len()
}

// ---------------------------------------------------------------------------
// Expansion
// ---------------------------------------------------------------------------

/// The paths that the segments match below `base`.
pub open spec fn expansions(fs: Snapshot, base: Seq<char>, segments: Seq<Seq<char>>) -> Seq<
    Seq<char>,
>
    decreases segments.len(), 1int, 0int,
{
    if segments.len() == 0 {
        seq![base]
    } else if !wildcard_from(segments[0], 0) {
        let next = child(base, segments[0]);
        if fs.spec_exists(next) {
            expansions(fs, next, segments.skip(1))
        } else {
            Seq::empty()
        }
    } else {
        match fs.entries(base) {
            Some(entries) => entry_expansions(fs, base, entries, 0, segments[0], segments.skip(1)),
            None => Seq::empty(),
        }
    }
}

/// The paths that the entries from `i` on give when their names match `segment`
/// and what is below them matches the other segments.
pub open spec fn entry_expansions(
    fs: Snapshot,
    base: Seq<char>,
    entries: Seq<DirEntry>,
    i: int,
    segment: Seq<char>,
    rest: Seq<Seq<char>>,
) -> Seq<Seq<char>>
    decreases rest.len() + 1, 0int, entries.len() - i,
{
    if i < 0 || i >= entries.len() {
        Seq::empty()
    } else {
        let path = child(base, entries[i].name@);
        let here = if !glob_matches(segment, entries[i].name@) {
            Seq::empty()
        } else if rest.len() == 0 {
            seq![path]
        } else if fs.spec_is_dir(path) {
            expansions(fs, path, rest)
        } else {
            Seq::empty()
        };
        here + entry_expansions(fs, base, entries, i + 1, segment, rest)
    }
}

/// The parts from `i` on that are not empty.
pub open spec fn filled_from(parts: Seq<Seq<char>>, i: int) -> Seq<Seq<char>>
    decreases parts.len() - i,
{
    if i < 0 || i >= parts.len() {
        Seq::empty()
    } else if parts[i].len() == 0 {
        filled_from(parts, i + 1)
    } else {
        seq![parts[i]] + filled_from(parts, i + 1)
    }
}

/// A path as it is written from the directory `cwd`.
pub open spec fn relative(cwd: Seq<char>, path: Seq<char>) -> Seq<char> {
    let prefix = if cwd.len() > 0 && cwd.last() == '/' {
        cwd
    } else {
        cwd + seq!['/']
    };
    if starts_with(path, prefix) {
        path.skip(prefix.len() as int)
    } else if path == cwd {
        seq!['.']
    } else {
        path
    }
}

/// What a pattern matches.
pub open spec fn glob_found(fs: Snapshot, cwd: Seq<char>, pattern: Seq<char>) -> Seq<Seq<char>> {
    let segments = filled_from(split(pattern, '/'), 0);
    if pattern.len() > 0 && pattern[0] == '/' {
        expansions(fs, seq!['/'], segments)
    } else {
        expansions(fs, cwd, segments).map_values(|p: Seq<char>| relative(cwd, p))
    }
}

/// Expands a pattern to the sorted paths that it matches. A text that is no
/// pattern, or that matches nothing, stands for itself.
pub fn expand_glob(fs: &Snapshot, cwd: &str, pattern: &str) -> (r: Vec<String>)
    ensures
        if !wildcard_from(pattern@, 0) || filled_from(split(pattern@, '/'), 0).len() == 0
            || glob_found(*fs, cwd@, pattern@).len() == 0 {
            strs(r@) == seq![pattern@]
        } else {
            strs(r@) == sorted(glob_found(*fs, cwd@, pattern@))
        },
{
    let mut literal: Vec<String> = Vec::new();
    literal.push(pattern.to_owned());
    proof {
        assert(strs(literal@) =~= seq![pattern@]);
    }
    if !is_glob_pattern(pattern) {
        return literal;
    }
    let cs = to_chars(pattern);
    let absolute = cs.len() > 0 && cs[0] == '/';
    let parts = split_chars(&cs, '/');
    let mut segments: Vec<String> = Vec::new();
    let mut i: usize = 0;
    let ghost all = rows(parts@);
    proof {
        assert(strs(segments@) + filled_from(all, 0) =~= filled_from(all, 0));
    }
    while i < parts.len()
        invariant
            all == rows(parts@),
            i <= parts@.len(),
            strs(segments@) + filled_from(all, i as int) == filled_from(all, 0),
        decreases parts@.len() - i,
    {
        if parts[i].len() > 0 {
            let ghost before = segments@;
            let s = to_text(&parts[i]);
            segments.push(s);
            proof {
                lemma_strs_push(before, s);
                assert(strs(segments@) + filled_from(all, i + 1) =~= strs(before) + filled_from(
                    all,
                    i as int,
                ));
            }
        }
        i += 1;
    }
    proof {
        assert(strs(segments@) =~= filled_from(all, 0));
    }
    if segments.len() == 0 {
        return literal;
    }
    proof {
        reveal_strlit("/");
        assert("/"@ =~= seq!['/']);
        assert(strs(segments@).skip(0) =~= strs(segments@));
    }
    let base = if absolute {
        "/"
    } else {
        cwd
    };
    let found = expand_glob_recursive(fs, base, &segments, 0);
    let matches = if absolute {
        found
    } else {
        let r = relative_all(cwd, &found);
        r
    };
    proof {
        assert(strs(matches@) =~= glob_found(*fs, cwd@, pattern@));
    }
    if matches.len() == 0 {
        literal
    } else {
        sort_strings(&matches)
    }
}

fn relative_all(cwd: &str, paths: &Vec<String>) -> (r: Vec<String>)
    ensures
        strs(r@) == strs(paths@).map_values(|p: Seq<char>| relative(cwd@, p)),
{
    let mut prefix = to_chars(cwd);
    if !(prefix.len() > 0 && prefix[prefix.len() - 1] == '/') {
        prefix.push('/');
        proof {
            assert(prefix@ =~= cwd@ + seq!['/']);
        }
    }
    let mut out: Vec<String> = Vec::new();
    let mut i: usize = 0;
    while i < paths.len()
        invariant
            prefix@ == (if cwd@.len() > 0 && cwd@.last() == '/' {
                cwd@
            } else {
                cwd@ + seq!['/']
            }),
            i <= paths@.len(),
            out@.len() == i,
            forall|k: int| 0 <= k < i ==> (#[trigger] out@[k])@ == relative(cwd@, paths@[k]@),
        decreases paths@.len() - i,
    {
        let path = to_chars(paths[i].as_str());
        let s = if chars_at(&path, &prefix, 0) {
            text_part(&path, prefix.len(), path.len())
        } else if str_eq(paths[i].as_str(), cwd) {
            proof {
                reveal_strlit(".");
                assert("."@ =~= seq!['.']);
            }
            ".".to_owned()
        } else {
            paths[i].clone()
        };
        out.push(s);
        i += 1;
    }
    proof {
        assert(strs(out@) =~= strs(paths@).map_values(|p: Seq<char>| relative(cwd@, p)));
    }
    out
}

fn append_strings(out: &mut Vec<String>, more: &mut Vec<String>)
    ensures
        strs(final(out)@) == strs(old(out)@) + strs(old(more)@),
{
    let ghost a = out@;
    let ghost b = more@;
    out.append(more);
    proof {
        assert(strs(out@) =~= strs(a) + strs(b));
    }
}

fn expand_glob_recursive(fs: &Snapshot, base: &str, segments: &Vec<String>, at: usize) -> (r: Vec<
    String,
>)
    requires
        at <= segments@.len(),
    ensures
        strs(r@) == expansions(*fs, base@, strs(segments@).skip(at as int)),
    decreases segments@.len() - at,
{
    let ghost segs = strs(segments@).skip(at as int);
    let mut results: Vec<String> = Vec::new();
    if at == segments.len() {
        results.push(base.to_owned());
        proof {
            assert(strs(results@) =~= seq![base@]);
        }
        return results;
    }
    let segment = &segments[at];
    proof {
        assert(segs[0] == segment@);
        assert(segs.skip(1) =~= strs(segments@).skip(at + 1));
    }
    if !is_glob_pattern(segment.as_str()) {
        let next = child_path(base, segment.as_str());
        if fs.path_exists(next.as_str()) {
            return expand_glob_recursive(fs, next.as_str(), segments, at + 1);
        }
        proof {
            assert(strs(results@) =~= Seq::<Seq<char>>::empty());
        }
        return results;
    }
    proof {
        assert(strs(results@) =~= Seq::<Seq<char>>::empty());
    }
    let entries = match fs.get(base) {
        Some(Node::Dir(v)) => v,
        _ => {
            return results;
        },
    };
    let ghost rest = segs.skip(1);
    let ghost whole = entry_expansions(*fs, base@, entries@, 0, segment@, rest);
    proof {
        assert(strs(results@) + whole =~= whole);
    }
    let mut i: usize = 0;
    while i < entries.len()
        invariant
            at < segments.len(),
            segment@ == segments@[at as int]@,
            rest == strs(segments@).skip(at + 1),
            i <= entries@.len(),
            strs(results@) + entry_expansions(*fs, base@, entries@, i as int, segment@, rest)
                == whole,
        decreases entries@.len() - i,
    {
        let name = &entries[i].name;
        let ghost before = results@;
        let ghost path = child(base@, name@);
        let ghost tail = entry_expansions(*fs, base@, entries@, i + 1, segment@, rest);
        let ghost here = if !glob_matches(segment@, name@) {
            Seq::empty()
        } else if rest.len() == 0 {
            seq![path]
        } else if fs.spec_is_dir(path) {
            expansions(*fs, path, rest)
        } else {
            Seq::empty()
        };
        if glob_match(segment.as_str(), name.as_str()) {
            let matched = child_path(base, name.as_str());
            if at + 1 == segments.len() {
                results.push(matched);
                proof {
                    lemma_strs_push(before, matched);
                    assert(strs(results@) =~= strs(before) + seq![path]);
                }
            } else if fs.is_dir(matched.as_str()) {
                let mut more = expand_glob_recursive(fs, matched.as_str(), segments, at + 1);
                append_strings(&mut results, &mut more);
            }
        }
        proof {
            assert(strs(results@) =~= strs(before) + here);
            assert((strs(before) + here) + tail =~= strs(before) + (here + tail));
        }
        i += 1;
    }
    proof {
        assert(strs(results@) + Seq::<Seq<char>>::empty() =~= strs(results@));
    }
    results
}

// ---------------------------------------------------------------------------
// Laws
// ---------------------------------------------------------------------------

/// A star matches every text.
pub proof fn law_star_matches_all(t: Seq<char>)
    ensures
        glob_matches(seq!['*'], t),
{
    lemma_star_to_the_end(t, 0);
}

proof fn lemma_star_to_the_end(t: Seq<char>, ti: int)
    requires
        0 <= ti <= t.len(),
    ensures
        matches_from(seq!['*'], 0, t, ti),
    decreases t.len() - ti,
{
    let p = seq!['*'];
    if ti < t.len() {
        lemma_star_to_the_end(t, ti + 1);
    } else {
        assert(matches_from(p, 1, t, ti));
    }
}

/// Whether no character of a pattern has a meaning of its own: none is a star, a question
/// mark, an opening bracket or a backslash.
pub open spec fn is_plain(p: Seq<char>) -> bool {
    forall|k: int|
        0 <= k < p.len() ==> (#[trigger] p[k]) != '*' && p[k] != '?' && p[k] != '[' && p[k] != '\\'
}

/// A pattern without a wildcard matches one text: itself.
pub proof fn law_plain_pattern_matches_itself(p: Seq<char>, t: Seq<char>)
    requires
        is_plain(p),
    ensures
        glob_matches(p, t) == (p == t),
{
    lemma_plain_from(p, t, 0);
    assert(p.skip(0) =~= p);
    assert(t.skip(0) =~= t);
}

proof fn lemma_plain_from(p: Seq<char>, t: Seq<char>, i: int)
    requires
        is_plain(p),
        0 <= i <= p.len(),
        0 <= i <= t.len(),
    ensures
        matches_from(p, i, t, i) == (p.skip(i) == t.skip(i)),
    decreases p.len() - i,
{
    if i < p.len() && i < t.len() {
        lemma_plain_from(p, t, i + 1);
        assert(p[i] == p.skip(i)[0] && t[i] == t.skip(i)[0]);
        if p[i] == t[i] {
            assert(p.skip(i) =~= seq![p[i]] + p.skip(i + 1));
            assert(t.skip(i) =~= seq![t[i]] + t.skip(i + 1));
            if p.skip(i) == t.skip(i) {
                assert(p.skip(i + 1) =~= p.skip(i).skip(1));
                assert(t.skip(i + 1) =~= t.skip(i).skip(1));
            }
        }
    } else {
        assert(p.skip(i).len() == p.len() - i && t.skip(i).len() == t.len() - i);
        if i == p.len() && i == t.len() {
            assert(p.skip(i) =~= t.skip(i));
        }
    }
}

/// The path of names below one another.
pub open spec fn below(base: Seq<char>, names: Seq<Seq<char>>) -> Seq<char>
    decreases names.len(),
{
    if names.len() == 0 {
        base
    } else {
        below(child(base, names[0]), names.skip(1))
    }
}

/// Whether each name is one that its segment of a pattern stands for: a name that the
/// segment matches, or the segment itself where it holds no wildcard.
pub open spec fn fit_segments(segments: Seq<Seq<char>>, names: Seq<Seq<char>>) -> bool {
    &&& names.len() == segments.len()
    &&& forall|i: int|
        0 <= i < segments.len() ==> if wildcard_from(#[trigger] segments[i], 0) {
            glob_matches(segments[i], names[i])
        } else {
            names[i] == segments[i]
        }
}

proof fn lemma_fit_front(
    base: Seq<char>,
    segments: Seq<Seq<char>>,
    name: Seq<char>,
    rest: Seq<Seq<char>>,
)
    requires
        segments.len() > 0,
        fit_segments(segments.skip(1), rest),
        if wildcard_from(segments[0], 0) {
            glob_matches(segments[0], name)
        } else {
            name == segments[0]
        },
    ensures
        fit_segments(segments, seq![name] + rest),
        below(base, seq![name] + rest) == below(child(base, name), rest),
{
    let names = seq![name] + rest;
    assert(names.skip(1) =~= rest);
    assert forall|i: int| 0 <= i < segments.len() implies if wildcard_from(
        #[trigger] segments[i],
        0,
    ) {
        glob_matches(segments[i], names[i])
    } else {
        names[i] == segments[i]
    } by {
        if i > 0 {
            assert(segments.skip(1)[i - 1] == segments[i]);
            assert(rest[i - 1] == names[i]);
        }
    }
}

proof fn lemma_expansion(fs: Snapshot, base: Seq<char>, segments: Seq<Seq<char>>, path: Seq<char>) -> (
    names: Seq<Seq<char>>)
    requires
        expansions(fs, base, segments).contains(path),
    ensures
        fit_segments(segments, names),
        path == below(base, names),
    decreases segments.len(), 1int, 0int,
{
    if segments.len() == 0 {
        Seq::empty()
    } else if !wildcard_from(segments[0], 0) {
        let rest = lemma_expansion(fs, child(base, segments[0]), segments.skip(1), path);
        lemma_fit_front(base, segments, segments[0], rest);
        seq![segments[0]] + rest
    } else {
        let entries = fs.entries(base)->0;
        assert(segments =~= seq![segments[0]] + segments.skip(1));
        lemma_entry_expansion(fs, base, entries, 0, segments, path)
    }
}

proof fn lemma_entry_expansion(
    fs: Snapshot,
    base: Seq<char>,
    entries: Seq<DirEntry>,
    i: int,
    segments: Seq<Seq<char>>,
    path: Seq<char>,
) -> (names: Seq<Seq<char>>)
    requires
        segments.len() > 0,
        wildcard_from(segments[0], 0),
        entry_expansions(fs, base, entries, i, segments[0], segments.skip(1)).contains(path),
    ensures
        fit_segments(segments, names),
        path == below(base, names),
    decreases segments.len(), 0int, entries.len() - i,
{
    let rest = segments.skip(1);
    let name = entries[i].name@;
    let below_here = child(base, name);
    let found = glob_matches(segments[0], name);
    let here = if !found {
        Seq::empty()
    } else if rest.len() == 0 {
        seq![below_here]
    } else if fs.spec_is_dir(below_here) {
        expansions(fs, below_here, rest)
    } else {
        Seq::empty()
    };
    let others = entry_expansions(fs, base, entries, i + 1, segments[0], rest);
    let all = entry_expansions(fs, base, entries, i, segments[0], rest);
    assert(all == here + others);
    let k = choose|k: int| 0 <= k < all.len() && all[k] == path;
    if k < here.len() {
        assert(here[k] == path);
        assert(here.contains(path));
        let more = if rest.len() == 0 {
            Seq::empty()
        } else {
            lemma_expansion(fs, below_here, rest, path)
        };
        lemma_fit_front(base, segments, name, more);
        seq![name] + more
    } else {
        assert(others[k - here.len()] == path);
        lemma_entry_expansion(fs, base, entries, i + 1, segments, path)
    }
}

/// A pattern expands only to paths that it matches, segment by segment.
pub proof fn law_expansions_match(
    fs: Snapshot,
    base: Seq<char>,
    segments: Seq<Seq<char>>,
    path: Seq<char>,
)
    requires
        expansions(fs, base, segments).contains(path),
    ensures
        exists|names: Seq<Seq<char>>| #[trigger]
            fit_segments(segments, names) && path == below(base, names),
{
    let names = lemma_expansion(fs, base, segments, path);
    assert(fit_segments(segments, names));
}

/// Whether a directory lists a name.
pub open spec fn lists(fs: Snapshot, dir: Seq<char>, name: Seq<char>) -> bool {
    fs.entries(dir) matches Some(entries) && exists|i: int|
        0 <= i < entries.len() && (#[trigger] entries[i]).name@ == name
}

/// Whether names below one another are there and fit the segments of a pattern: a
/// segment without a wildcard names a path that exists, and another one matches a name
/// that its directory lists, which is a directory where more segments follow.
pub open spec fn found_below(
    fs: Snapshot,
    base: Seq<char>,
    segments: Seq<Seq<char>>,
    names: Seq<Seq<char>>,
) -> bool
    decreases segments.len(),
{
    if segments.len() == 0 {
        names.len() == 0
    } else {
        &&& names.len() > 0
        &&& if wildcard_from(segments[0], 0) {
            &&& lists(fs, base, names[0])
            &&& glob_matches(segments[0], names[0])
            &&& segments.len() == 1 || fs.spec_is_dir(child(base, names[0]))
        } else {
            names[0] == segments[0] && fs.spec_exists(child(base, names[0]))
        }
        &&& found_below(fs, child(base, names[0]), segments.skip(1), names.skip(1))
    }
}

/// A pattern expands to every path that is there and that it matches, segment by
/// segment.
pub proof fn law_expansions_are_all(
    fs: Snapshot,
    base: Seq<char>,
    segments: Seq<Seq<char>>,
    names: Seq<Seq<char>>,
)
    requires
        found_below(fs, base, segments, names),
    ensures
        expansions(fs, base, segments).contains(below(base, names)),
    decreases segments.len(),
{
    let path = below(base, names);
    if segments.len() == 0 {
        assert(expansions(fs, base, segments)[0] == path);
    } else {
        law_expansions_are_all(fs, child(base, names[0]), segments.skip(1), names.skip(1));
        if wildcard_from(segments[0], 0) {
            let entries = fs.entries(base)->0;
            let j = choose|j: int|
                0 <= j < entries.len() && (#[trigger] entries[j]).name@ == names[0];
            lemma_entry_found(fs, base, entries, 0, j, segments, names);
        }
    }
}

proof fn lemma_entry_found(
    fs: Snapshot,
    base: Seq<char>,
    entries: Seq<DirEntry>,
    i: int,
    j: int,
    segments: Seq<Seq<char>>,
    names: Seq<Seq<char>>,
)
    requires
        0 <= i <= j < entries.len(),
        segments.len() > 0,
        wildcard_from(segments[0], 0),
        found_below(fs, base, segments, names),
        entries[j].name@ == names[0],
        expansions(fs, child(base, names[0]), segments.skip(1)).contains(below(base, names)),
    ensures
        entry_expansions(fs, base, entries, i, segments[0], segments.skip(1)).contains(
            below(base, names),
        ),
    decreases j - i,
{
    let rest = segments.skip(1);
    let path = below(base, names);
    let here_path = child(base, entries[i].name@);
    let here = if !glob_matches(segments[0], entries[i].name@) {
        Seq::empty()
    } else if rest.len() == 0 {
        seq![here_path]
    } else if fs.spec_is_dir(here_path) {
        expansions(fs, here_path, rest)
    } else {
        Seq::empty()
    };
    let others = entry_expansions(fs, base, entries, i + 1, segments[0], rest);
    let all = entry_expansions(fs, base, entries, i, segments[0], rest);
    assert(all == here + others);
    if i == j {
        assert(here == expansions(fs, here_path, rest));
        let k = choose|k: int| 0 <= k < here.len() && here[k] == path;
        assert(all[k] == path);
    } else {
        lemma_entry_found(fs, base, entries, i + 1, j, segments, names);
        let k = choose|k: int| 0 <= k < others.len() && others[k] == path;
        assert(all[here.len() + k] == path);
    }
}

/// Whether no two entries have the same name.
pub open spec fn distinct_names(entries: Seq<DirEntry>) -> bool {
    forall|i: int, j: int|
        0 <= i < j < entries.len() ==> (#[trigger] entries[i]).name@ != (#[trigger] entries[j]).name@
}

/// Whether every directory lists a name once.
pub open spec fn lists_once(fs: Snapshot) -> bool {
    forall|dir: Seq<char>|
        (#[trigger] fs.entries(dir)) matches Some(entries) ==> distinct_names(entries)
}

/// Whether a path is another one, or lies below it.
spec fn extends(path: Seq<char>, top: Seq<char>) -> bool {
    &&& top.len() <= path.len()
    &&& path.take(top.len() as int) == top
    &&& top.len() < path.len() ==> path[top.len() as int] == '/'
}

spec fn all_filled(segments: Seq<Seq<char>>) -> bool {
    forall|i: int| 0 <= i < segments.len() ==> (#[trigger] segments[i]).len() > 0
}

proof fn lemma_filled(parts: Seq<Seq<char>>, i: int)
    ensures
        all_filled(filled_from(parts, i)),
    decreases parts.len() - i,
{
    if 0 <= i < parts.len() {
        lemma_filled(parts, i + 1);
    }
}

proof fn lemma_extends_child(path: Seq<char>, top: Seq<char>, name: Seq<char>)
    requires
        top.len() >= 2,
        extends(path, child(top, name)),
    ensures
        extends(path, top),
{
    let c = child(top, name);
    assert(c == top + seq!['/'] + name);
    assert(path.take(c.len() as int)[top.len() as int] == '/');
    assert forall|k: int| 0 <= k < top.len() implies path.take(top.len() as int)[k] == top[k] by {
        assert(path.take(c.len() as int)[k] == c[k]);
    }
    assert(path.take(top.len() as int) =~= top);
}

proof fn lemma_expansion_extends(
    fs: Snapshot,
    top: Seq<char>,
    segments: Seq<Seq<char>>,
    path: Seq<char>,
)
    requires
        top.len() >= 2,
        expansions(fs, top, segments).contains(path),
    ensures
        extends(path, top),
    decreases segments.len(), 1int, 0int,
{
    if segments.len() == 0 {
        assert(path.take(top.len() as int) =~= top);
    } else if !wildcard_from(segments[0], 0) {
        lemma_expansion_extends(fs, child(top, segments[0]), segments.skip(1), path);
        lemma_extends_child(path, top, segments[0]);
    } else {
        let entries = fs.entries(top)->0;
        let j = lemma_entry_extends(
            fs,
            top,
            entries,
            0,
            segments[0],
            segments.skip(1),
            path,
        );
        lemma_extends_child(path, top, entries[j].name@);
    }
}

proof fn lemma_entry_extends(
    fs: Snapshot,
    base: Seq<char>,
    entries: Seq<DirEntry>,
    i: int,
    segment: Seq<char>,
    rest: Seq<Seq<char>>,
    path: Seq<char>,
) -> (j: int)
    requires
        0 <= i,
        forall|k: int|
            0 <= k < entries.len() ==> child(base, (#[trigger] entries[k]).name@).len() >= 2,
        entry_expansions(fs, base, entries, i, segment, rest).contains(path),
    ensures
        i <= j < entries.len(),
        extends(path, child(base, entries[j].name@)),
    decreases rest.len() + 1, 0int, entries.len() - i,
{
    let top = child(base, entries[i].name@);
    let here = if !glob_matches(segment, entries[i].name@) {
        Seq::empty()
    } else if rest.len() == 0 {
        seq![top]
    } else if fs.spec_is_dir(top) {
        expansions(fs, top, rest)
    } else {
        Seq::empty()
    };
    let others = entry_expansions(fs, base, entries, i + 1, segment, rest);
    let all = entry_expansions(fs, base, entries, i, segment, rest);
    assert(all == here + others);
    let k = choose|k: int| 0 <= k < all.len() && all[k] == path;
    if k < here.len() {
        assert(here[k] == path);
        assert(child(base, entries[i].name@).len() >= 2);
        if rest.len() == 0 {
            assert(path.take(top.len() as int) =~= top);
        } else {
            lemma_expansion_extends(fs, top, rest, path);
        }
        i
    } else {
        assert(others[k - here.len()] == path);
        lemma_entry_extends(fs, base, entries, i + 1, segment, rest, path)
    }
}

/// A path lies below one name of a directory alone.
proof fn lemma_one_name(base: Seq<char>, a: Seq<char>, b: Seq<char>, path: Seq<char>)
    requires
        names(a),
        names(b),
        extends(path, child(base, a)),
        extends(path, child(base, b)),
    ensures
        a == b,
{
    let n = child(base, a).len() - a.len();
    let p = path.take(child(base, a).len() as int);
    let q = path.take(child(base, b).len() as int);
    assert forall|k: int| 0 <= k < a.len() implies path[n + k] == a[k] by {
        assert(p[n + k] == child(base, a)[n + k]);
    }
    assert forall|k: int| 0 <= k < b.len() implies path[n + k] == b[k] by {
        assert(q[n + k] == child(base, b)[n + k]);
    }
    if a.len() < b.len() {
        assert(path[n + a.len()] == b[a.len() as int]);
    } else if b.len() < a.len() {
        assert(path[n + b.len()] == a[b.len() as int]);
    } else {
        assert forall|k: int| 0 <= k < a.len() implies a[k] == b[k] by {
            assert(path[n + k] == a[k]);
        }
        assert(a =~= b);
    }
}

proof fn lemma_child_len(fs: Snapshot, base: Seq<char>)
    requires
        fs.well_named(),
    ensures
        fs.entries(base) matches Some(entries) ==> forall|k: int|
            0 <= k < entries.len() ==> names((#[trigger] entries[k]).name@) && child(
                base,
                entries[k].name@,
            ).len() >= 2,
{
    lemma_node_names(fs, base, 0);
    if let Some(entries) = fs.entries(base) {
        assert forall|k: int| 0 <= k < entries.len() implies names((#[trigger] entries[k]).name@)
            && child(base, entries[k].name@).len() >= 2 by {
            let name = entries[k].name@;
            assert(names(name));
            if name.len() == 0 {
                assert(name =~= Seq::<char>::empty());
            }
        }
    }
}

proof fn lemma_expansions_once(fs: Snapshot, base: Seq<char>, segments: Seq<Seq<char>>)
    requires
        fs.well_named(),
        lists_once(fs),
    ensures
        expansions(fs, base, segments).no_duplicates(),
    decreases segments.len(), 1int, 0int,
{
    if segments.len() > 0 {
        if !wildcard_from(segments[0], 0) {
            lemma_expansions_once(fs, child(base, segments[0]), segments.skip(1));
        } else {
            match fs.entries(base) {
                Some(entries) => {
                    lemma_child_len(fs, base);
                    assert(distinct_names(entries));
                    lemma_entries_once(fs, base, entries, 0, segments[0], segments.skip(1));
                },
                None => {},
            }
        }
    }
}

proof fn lemma_entries_once(
    fs: Snapshot,
    base: Seq<char>,
    entries: Seq<DirEntry>,
    i: int,
    segment: Seq<char>,
    rest: Seq<Seq<char>>,
)
    requires
        0 <= i,
        fs.well_named(),
        lists_once(fs),
        distinct_names(entries),
        forall|k: int|
            0 <= k < entries.len() ==> names((#[trigger] entries[k]).name@) && child(
                base,
                entries[k].name@,
            ).len() >= 2,
    ensures
        entry_expansions(fs, base, entries, i, segment, rest).no_duplicates(),
    decreases rest.len() + 1, 0int, entries.len() - i,
{
    if i < entries.len() {
        let top = child(base, entries[i].name@);
        let here = if !glob_matches(segment, entries[i].name@) {
            Seq::empty()
        } else if rest.len() == 0 {
            seq![top]
        } else if fs.spec_is_dir(top) {
            expansions(fs, top, rest)
        } else {
            Seq::empty()
        };
        let others = entry_expansions(fs, base, entries, i + 1, segment, rest);
        let all = entry_expansions(fs, base, entries, i, segment, rest);
        assert(all == here + others);
        lemma_entries_once(fs, base, entries, i + 1, segment, rest);
        if rest.len() > 0 {
            lemma_expansions_once(fs, top, rest);
        }
        assert(here.no_duplicates());
        assert forall|a: int, b: int|
            0 <= a < here.len() && 0 <= b < others.len() implies here[a] != others[b] by {
            if here[a] == others[b] {
                let path = here[a];
                assert(others.contains(path));
                let j = lemma_entry_extends(fs, base, entries, i + 1, segment, rest, path);
                assert(here.contains(path));
                assert(entries[i].name@.len() >= 0);
                if rest.len() == 0 {
                    assert(path.take(top.len() as int) =~= top);
                } else {
                    lemma_expansion_extends(fs, top, rest, path);
                }
                assert(extends(path, child(base, entries[i].name@)));
                lemma_one_name(base, entries[i].name@, entries[j].name@, path);
            }
        }
        assert forall|a: int, b: int|
            0 <= a < all.len() && 0 <= b < all.len() && a != b implies all[a] != all[b] by {
            let n = here.len() as int;
            if a < n && b < n {
                assert(here[a] != here[b]);
            } else if a < n {
                assert(here[a] != others[b - n]);
            } else if b < n {
                assert(here[b] != others[a - n]);
            } else {
                assert(others[a - n] != others[b - n]);
            }
        }
    }
}

/// The start of the paths below a directory.
spec fn below_start(base: Seq<char>) -> Seq<char> {
    if base == seq!['/'] {
        base
    } else {
        base + seq!['/']
    }
}

proof fn lemma_starts_below(
    fs: Snapshot,
    base: Seq<char>,
    segments: Seq<Seq<char>>,
    path: Seq<char>,
)
    requires
        fs.well_named(),
        segments.len() > 0,
        all_filled(segments),
        expansions(fs, base, segments).contains(path),
    ensures
        starts_with(path, below_start(base)),
{
    let start = below_start(base);
    let name = if !wildcard_from(segments[0], 0) {
        assert(segments[0].len() > 0);
        let top = child(base, segments[0]);
        lemma_expansion_extends(fs, top, segments.skip(1), path);
        segments[0]
    } else {
        let entries = fs.entries(base)->0;
        lemma_child_len(fs, base);
        let j = lemma_entry_extends(
            fs,
            base,
            entries,
            0,
            segments[0],
            segments.skip(1),
            path,
        );
        entries[j].name@
    };
    let top = child(base, name);
    assert(top =~= start + name);
    let p = path.take(top.len() as int);
    assert forall|k: int| 0 <= k < start.len() implies path[k] == start[k] by {
        assert(p[k] == top[k]);
    }
    assert(path.subrange(0, start.len() as int) =~= start);
}

/// No path comes twice where a pattern is expanded, if every directory lists a name once.
pub proof fn law_no_path_twice(fs: Snapshot, cwd: Seq<char>, pattern: Seq<char>)
    requires
        fs.well_named(),
        lists_once(fs),
    ensures
        sorted(glob_found(fs, cwd, pattern)).no_duplicates(),
{
    let segments = filled_from(split(pattern, '/'), 0);
    lemma_filled(split(pattern, '/'), 0);
    if pattern.len() > 0 && pattern[0] == '/' {
        lemma_expansions_once(fs, seq!['/'], segments);
    } else {
        lemma_expansions_once(fs, cwd, segments);
        let paths = expansions(fs, cwd, segments);
        let found = glob_found(fs, cwd, pattern);
        assert forall|i: int, j: int|
            0 <= i < found.len() && 0 <= j < found.len() && i != j implies found[i] != found[j] by {
            assert(paths[i] != paths[j]);
            if segments.len() > 0 {
                assert(paths.contains(paths[i]) && paths.contains(paths[j]));
                lemma_starts_below(fs, cwd, segments, paths[i]);
                lemma_starts_below(fs, cwd, segments, paths[j]);
                lemma_relative_tells(cwd, paths[i], paths[j]);
            }
        }
    }
    lemma_sorted_once(glob_found(fs, cwd, pattern));
}

proof fn lemma_relative_tells(cwd: Seq<char>, a: Seq<char>, b: Seq<char>)
    requires
        starts_with(a, below_start(cwd)),
        starts_with(b, below_start(cwd)),
        a != b,
    ensures
        relative(cwd, a) != relative(cwd, b),
{
    let prefix = if cwd.len() > 0 && cwd.last() == '/' {
        cwd
    } else {
        cwd + seq!['/']
    };
    let start = below_start(cwd);
    assert(prefix.len() <= start.len());
    assert(start.take(prefix.len() as int) =~= prefix);
    assert(starts_with(a, prefix)) by {
        lemma_starts_shorter(a, start, prefix);
    }
    assert(starts_with(b, prefix)) by {
        lemma_starts_shorter(b, start, prefix);
    }
    let n = prefix.len() as int;
    if a.skip(n) == b.skip(n) {
        assert(a =~= prefix + a.skip(n)) by {
            lemma_rejoined(a, prefix);
        }
        assert(b =~= prefix + b.skip(n)) by {
            lemma_rejoined(b, prefix);
        }
    }
}

proof fn lemma_starts_shorter(s: Seq<char>, long: Seq<char>, short: Seq<char>)
    requires
        starts_with(s, long),
        short.len() <= long.len(),
        long.take(short.len() as int) == short,
    ensures
        starts_with(s, short),
{
    let n = short.len() as int;
    assert forall|k: int| 0 <= k < n implies s[k] == short[k] by {
        assert(long.take(n)[k] == short[k]);
        assert(s.subrange(0, long.len() as int)[k] == long[k]);
    }
    assert(s.subrange(0, n) =~= short);
}

proof fn lemma_rejoined(s: Seq<char>, prefix: Seq<char>)
    requires
        starts_with(s, prefix),
    ensures
        s == prefix + s.skip(prefix.len() as int),
{
    let n = prefix.len() as int;
    assert forall|k: int| 0 <= k < n implies s[k] == prefix[k] by {
        assert(s.subrange(0, n)[k] == prefix[k]);
    }
    assert(s =~= prefix + s.skip(n));
}

proof fn lemma_items_shift(p: Seq<char>, q: Seq<char>, from: int, i: int, ch: char)
    requires
        q.len() == p.len() + 1,
        forall|k: int| from <= k < p.len() ==> #[trigger] p[k] == q[k + 1],
        0 <= from <= i <= p.len(),
    ensures
        items_end(q, i + 1) == items_end(p, i) + 1,
        items_hold(q, i + 1, ch) == items_hold(p, i, ch),
    decreases p.len() - i,
{
    if i < p.len() && p[i] != ']' {
        if i + 1 < p.len() {
            assert(p[i + 1] == q[i + 2]);
        }
        if i + 2 < p.len() {
            assert(p[i + 2] == q[i + 3]);
        }
        lemma_items_shift(p, q, from, i + item_width(p, i), ch);
    }
}

/// A negation sign right behind the `[` of a bracket expression flips what it accepts
/// and leaves its items alone: it ends one place later.
pub proof fn law_negation_flips(p: Seq<char>, at: int, sign: char, ch: char)
    requires
        0 <= at,
        at + 1 < p.len(),
        p[at] == '[',
        sign == '!' || sign == '^',
        p[at + 1] != '!' && p[at + 1] != '^',
    ensures
        is_bracket(p.insert(at + 1, sign), at) == is_bracket(p, at),
        bracket_end(p.insert(at + 1, sign), at) == bracket_end(p, at) + 1,
        bracket_accepts(p.insert(at + 1, sign), at, ch) == !bracket_accepts(p, at, ch),
{
    let q = p.insert(at + 1, sign);
    assert forall|k: int| at + 1 <= k < p.len() implies #[trigger] p[k] == q[k + 1] by {
    }
    assert(p[at + 1] == q[at + 2]);
    lemma_items_shift(p, q, at + 1, bracket_rest(p, at), ch);
}

// ---------------------------------------------------------------------------
// What patterns match, element by element
// ---------------------------------------------------------------------------

proof fn lemma_items_skip(p: Seq<char>, d: int, i: int, ch: char)
    requires
        0 <= d <= p.len(),
        0 <= i <= p.len() - d,
    ensures
        items_end(p.skip(d), i) == items_end(p, i + d) - d,
        items_hold(p.skip(d), i, ch) == items_hold(p, i + d, ch),
    decreases p.len() - d - i,
{
    let q = p.skip(d);
    if i < q.len() && q[i] != ']' {
        lemma_items_skip(p, d, i + item_width(q, i), ch);
    }
}

proof fn lemma_element_skip(p: Seq<char>, pi: int, ch: char)
    requires
        0 <= pi < p.len(),
    ensures
        match (element(p.skip(pi), 0, ch), element(p, pi, ch)) {
            (Some(a), Some(b)) => a + pi == b,
            (None, None) => true,
            _ => false,
        },
{
    let q = p.skip(pi);
    assert(q[0] == p[pi]);
    if p[pi] == '[' {
        lemma_items_skip(p, pi, bracket_rest(q, 0), ch);
    }
}

proof fn lemma_matches_skip(p: Seq<char>, pi: int, t: Seq<char>, ti: int)
    requires
        0 <= pi <= p.len(),
        0 <= ti <= t.len(),
    ensures
        matches_from(p, pi, t, ti) == glob_matches(p.skip(pi), t.skip(ti)),
    decreases (p.len() - pi) + (t.len() - ti),
{
    let q = p.skip(pi);
    let u = t.skip(ti);
    if pi < p.len() {
        assert(q[0] == p[pi]);
        if p[pi] == '*' {
            lemma_matches_skip(p, pi + 1, t, ti);
            assert(q.skip(1) =~= p.skip(pi + 1));
            assert(u.skip(0) =~= u);
            lemma_matches_skip(q, 1, u, 0);
            if ti < t.len() {
                lemma_matches_skip(p, pi, t, ti + 1);
                assert(u.skip(1) =~= t.skip(ti + 1));
                assert(q.skip(0) =~= q);
                lemma_matches_skip_same(q, u);
            }
        } else if ti < t.len() {
            let ch = t[ti];
            assert(u[0] == ch);
            lemma_element_skip(p, pi, ch);
            lemma_element_bounds(p, pi, ch);
            lemma_element_bounds(q, 0, ch);
            if element(p, pi, ch) is Some {
                let next = element(p, pi, ch)->0;
                lemma_matches_skip(p, next, t, ti + 1);
                lemma_matches_skip(q, next - pi, u, 1);
                assert(q.skip(next - pi) =~= p.skip(next));
                assert(u.skip(1) =~= t.skip(ti + 1));
            }
        }
    }
}

/// Where a pattern starts with a star, it matters what the rest of the text is.
proof fn lemma_matches_skip_same(q: Seq<char>, u: Seq<char>)
    requires
        q.len() > 0,
        q[0] == '*',
        u.len() > 0,
    ensures
        matches_from(q, 0, u, 1) == glob_matches(q, u.skip(1)),
    decreases u.len(),
{
    let k = if matches_from(q, 0, u, 1) {
        lemma_star_releases(q, 0, u, 1)
    } else {
        1
    };
    if matches_from(q, 0, u, 1) {
        lemma_tail_same(q, 1, u, k, 1);
        lemma_star_absorbs(q, 0, u.skip(1), 0, k - 1);
    }
    if glob_matches(q, u.skip(1)) {
        let m = lemma_star_releases(q, 0, u.skip(1), 0);
        lemma_tail_same(q, 1, u, m + 1, 1);
        lemma_star_absorbs(q, 0, u, 1, m + 1);
    }
}

/// What is matched does not depend on the text before it.
proof fn lemma_tail_same(q: Seq<char>, qi: int, u: Seq<char>, at: int, d: int)
    requires
        0 <= qi <= q.len(),
        0 <= d <= at <= u.len(),
    ensures
        matches_from(q, qi, u, at) == matches_from(q, qi, u.skip(d), at - d),
    decreases (q.len() - qi) + (u.len() - at),
{
    let w = u.skip(d);
    if qi < q.len() {
        if q[qi] == '*' {
            lemma_tail_same(q, qi + 1, u, at, d);
            if at < u.len() {
                lemma_tail_same(q, qi, u, at + 1, d);
            }
        } else if at < u.len() {
            assert(w[at - d] == u[at]);
            lemma_element_bounds(q, qi, u[at]);
            if element(q, qi, u[at]) is Some {
                lemma_tail_same(q, element(q, qi, u[at])->0, u, at + 1, d);
            }
        }
    }
}

/// The empty pattern matches the empty text alone.
pub proof fn law_empty_pattern(t: Seq<char>)
    ensures
        glob_matches(Seq::empty(), t) == (t.len() == 0),
{
}

/// A `?` takes exactly one character, whatever it is.
pub proof fn law_question_mark_takes_one(p: Seq<char>, t: Seq<char>)
    ensures
        glob_matches(seq!['?'] + p, t) == (t.len() > 0 && glob_matches(p, t.skip(1))),
{
    let q = seq!['?'] + p;
    assert(q.skip(1) =~= p);
    if t.len() > 0 {
        lemma_matches_skip(q, 1, t, 1);
    }
}

/// A character without a meaning of its own takes itself.
pub proof fn law_character_takes_itself(c: char, p: Seq<char>, t: Seq<char>)
    requires
        c != '*' && c != '?' && c != '[' && c != '\\',
    ensures
        glob_matches(seq![c] + p, t) == (t.len() > 0 && t[0] == c && glob_matches(p, t.skip(1))),
{
    let q = seq![c] + p;
    assert(q.skip(1) =~= p);
    if t.len() > 0 {
        lemma_matches_skip(q, 1, t, 1);
    }
}

/// A backslash and any character take that character alone.
pub proof fn law_backslash_takes_the_next(c: char, p: Seq<char>, t: Seq<char>)
    ensures
        glob_matches(seq!['\\', c] + p, t) == (t.len() > 0 && t[0] == c && glob_matches(
            p,
            t.skip(1),
        )),
{
    let q = seq!['\\', c] + p;
    assert(q.skip(2) =~= p);
    if t.len() > 0 {
        lemma_matches_skip(q, 2, t, 1);
    }
}

/// A `*` takes any number of characters, also none.
pub proof fn law_star_takes_any_number(p: Seq<char>, t: Seq<char>)
    ensures
        glob_matches(seq!['*'] + p, t) == exists|k: int|
            0 <= k <= t.len() && #[trigger] glob_matches(p, t.skip(k)),
{
    let q = seq!['*'] + p;
    assert(q.skip(1) =~= p);
    if glob_matches(q, t) {
        let k = lemma_star_releases(q, 0, t, 0);
        lemma_matches_skip(q, 1, t, k);
        assert(glob_matches(p, t.skip(k)));
    }
    if exists|k: int| 0 <= k <= t.len() && #[trigger] glob_matches(p, t.skip(k)) {
        let k = choose|k: int| 0 <= k <= t.len() && #[trigger] glob_matches(p, t.skip(k));
        lemma_matches_skip(q, 1, t, k);
        lemma_star_absorbs(q, 0, t, 0, k);
    }
}

/// Whether a row of characters can stand in a bracket expression as they are: none of
/// them closes it, makes a range or turns it round.
pub open spec fn is_plain_set(set: Seq<char>) -> bool {
    &&& set.len() > 0
    &&& set[0] != '!' && set[0] != '^'
    &&& forall|k: int| 0 <= k < set.len() ==> (#[trigger] set[k]) != ']' && set[k] != '-'
}

proof fn lemma_plain_items(set: Seq<char>, p: Seq<char>, lead: int, i: int, c: char)
    requires
        forall|k: int| 0 <= k < set.len() ==> (#[trigger] set[k]) != ']' && set[k] != '-',
        0 <= lead,
        lead + set.len() < p.len(),
        forall|k: int| 0 <= k < set.len() ==> #[trigger] set[k] == p[lead + k],
        p[lead + set.len()] == ']',
        0 <= i <= set.len(),
    ensures
        items_end(p, lead + i) == lead + set.len(),
        items_hold(p, lead + i, c) == set.skip(i).contains(c),
    decreases set.len() - i,
{
    if i < set.len() {
        assert(set[i] == p[lead + i]);
        if i + 1 < set.len() {
            assert(set[i + 1] == p[lead + i + 1]);
        }
        assert(!is_range(p, lead + i));
        lemma_plain_items(set, p, lead, i + 1, c);
        let rest = set.skip(i + 1);
        let all = set.skip(i);
        assert(all[0] == set[i]);
        if rest.contains(c) {
            let k = choose|k: int| 0 <= k < rest.len() && rest[k] == c;
            assert(all[k + 1] == c);
        }
        if all.contains(c) {
            let k = choose|k: int| 0 <= k < all.len() && all[k] == c;
            if k > 0 {
                assert(rest[k - 1] == c);
            }
        }
    } else {
        assert(!set.skip(i).contains(c));
    }
}

/// A bracket expression of plain characters takes one of them, and nothing else.
pub proof fn law_set_takes_its_characters(set: Seq<char>, p: Seq<char>, t: Seq<char>)
    requires
        is_plain_set(set),
    ensures
        glob_matches(seq!['['] + set + seq![']'] + p, t) == (t.len() > 0 && set.contains(t[0])
            && glob_matches(p, t.skip(1))),
{
    let q = seq!['['] + set + seq![']'] + p;
    let end = set.len() as int + 1;
    assert(q[0] == '[' && q[end] == ']');
    assert forall|k: int| 0 <= k < set.len() implies #[trigger] set[k] == q[1 + k] by {
    }
    assert(q[1] == set[0]);
    assert(set.skip(0) =~= set);
    assert(q.skip(end + 1) =~= p);
    if t.len() > 0 {
        lemma_plain_items(set, q, 1, 0, t[0]);
        lemma_matches_skip(q, end + 1, t, 1);
    }
}

/// A turned bracket expression of plain characters takes one character that is none of
/// them.
pub proof fn law_turned_set_takes_the_others(
    sign: char,
    set: Seq<char>,
    p: Seq<char>,
    t: Seq<char>,
)
    requires
        sign == '!' || sign == '^',
        is_plain_set(set),
    ensures
        glob_matches(seq!['[', sign] + set + seq![']'] + p, t) == (t.len() > 0 && !set.contains(
            t[0],
        ) && glob_matches(p, t.skip(1))),
{
    let q = seq!['[', sign] + set + seq![']'] + p;
    let end = set.len() as int + 2;
    assert(q[0] == '[' && q[1] == sign && q[end] == ']');
    assert forall|k: int| 0 <= k < set.len() implies #[trigger] set[k] == q[2 + k] by {
    }
    assert(q[2] == set[0]);
    assert(set.skip(0) =~= set);
    assert(q.skip(end + 1) =~= p);
    if t.len() > 0 {
        lemma_plain_items(set, q, 2, 0, t[0]);
        lemma_matches_skip(q, end + 1, t, 1);
    }
}

/// A range takes one character that lies between its ends, which both belong to it.
pub proof fn law_range_takes_both_ends(lo: char, hi: char, p: Seq<char>, t: Seq<char>)
    requires
        lo != ']' && lo != '!' && lo != '^' && lo != '-',
        hi != ']',
    ensures
        glob_matches(seq!['[', lo, '-', hi, ']'] + p, t) == (t.len() > 0 && lo <= t[0] && t[0]
            <= hi && glob_matches(p, t.skip(1))),
{
    let q = seq!['[', lo, '-', hi, ']'] + p;
    assert(q.skip(5) =~= p);
    assert(q[0] == '[' && q[1] == lo && q[2] == '-' && q[3] == hi && q[4] == ']');
    if t.len() > 0 {
        reveal_with_fuel(items_end, 3);
        reveal_with_fuel(items_hold, 3);
        lemma_matches_skip(q, 5, t, 1);
    }
}

/// A pattern of one range matches a text of one character exactly where the character
/// lies between the ends of the range.
pub proof fn law_range_of_one_character(lo: char, hi: char, c: char)
    requires
        lo != ']' && lo != '!' && lo != '^' && lo != '-' && lo != '\\',
        hi != ']' && hi != '!' && hi != '^' && hi != '-' && hi != '\\',
    ensures
        glob_matches(seq!['[', lo, '-', hi, ']'], seq![c]) == (lo <= c && c <= hi),
        lo <= hi ==> glob_matches(seq!['[', lo, '-', hi, ']'], seq![lo]) && glob_matches(
            seq!['[', lo, '-', hi, ']'],
            seq![hi],
        ),
{
    let q = seq!['[', lo, '-', hi, ']'];
    assert(q + Seq::<char>::empty() =~= q);
    assert forall|x: char| glob_matches(q, #[trigger] seq![x]) == (lo <= x && x <= hi) by {
        law_range_takes_both_ends(lo, hi, Seq::empty(), seq![x]);
        law_empty_pattern(seq![x].skip(1));
    }
}

/// A turned range takes one character that does not lie between its ends.
pub proof fn law_turned_range_takes_the_others(
    sign: char,
    lo: char,
    hi: char,
    p: Seq<char>,
    t: Seq<char>,
)
    requires
        sign == '!' || sign == '^',
        lo != ']' && lo != '-',
        hi != ']',
    ensures
        glob_matches(seq!['[', sign, lo, '-', hi, ']'] + p, t) == (t.len() > 0 && !(lo <= t[0]
            && t[0] <= hi) && glob_matches(p, t.skip(1))),
{
    let q = seq!['[', sign, lo, '-', hi, ']'] + p;
    assert(q.skip(6) =~= p);
    assert(q[0] == '[' && q[1] == sign && q[2] == lo && q[3] == '-' && q[4] == hi && q[5] == ']');
    if t.len() > 0 {
        reveal_with_fuel(items_end, 3);
        reveal_with_fuel(items_hold, 3);
        lemma_matches_skip(q, 6, t, 1);
    }
}

/// A `]` right behind the `[` is one of the characters that are taken.
pub proof fn law_leading_bracket_is_taken(set: Seq<char>, p: Seq<char>, t: Seq<char>)
    requires
        forall|k: int| 0 <= k < set.len() ==> (#[trigger] set[k]) != ']' && set[k] != '-',
    ensures
        glob_matches(seq!['[', ']'] + set + seq![']'] + p, t) == (t.len() > 0 && (t[0] == ']'
            || set.contains(t[0])) && glob_matches(p, t.skip(1))),
{
    let q = seq!['[', ']'] + set + seq![']'] + p;
    let end = set.len() as int + 2;
    assert(q[0] == '[' && q[1] == ']' && q[end] == ']');
    assert forall|k: int| 0 <= k < set.len() implies #[trigger] set[k] == q[2 + k] by {
    }
    assert(set.skip(0) =~= set);
    assert(q.skip(end + 1) =~= p);
    if t.len() > 0 {
        lemma_plain_items(set, q, 2, 0, t[0]);
        lemma_matches_skip(q, end + 1, t, 1);
    }
}

/// A `[` that nothing closes matches no text.
pub proof fn law_open_bracket_matches_nothing(set: Seq<char>, t: Seq<char>)
    requires
        forall|k: int| 0 <= k < set.len() ==> (#[trigger] set[k]) != ']',
    ensures
        !glob_matches(seq!['['] + set, t),
{
    let q = seq!['['] + set;
    if t.len() > 0 {
        let from = bracket_rest(q, 0);
        assert forall|k: int| 0 < k < q.len() implies q[k] != ']' by {
            assert(q[k] == set[k - 1]);
        }
        if from <= q.len() {
            lemma_items_end(q, from);
        }
    }
}

/// Whether a character has a meaning of its own in a pattern.
pub open spec fn is_special(c: char) -> bool {
    c == '*' || c == '?' || c == '[' || c == '\\'
}

/// A text is a pattern exactly where a `*`, a `?` or a `[` with something behind it
/// stands in it without a backslash before it.
pub proof fn law_wildcards_make_a_pattern(a: Seq<char>, c: char, b: Seq<char>)
    requires
        forall|k: int| 0 <= k < a.len() ==> !is_special(#[trigger] a[k]),
    ensures
        !wildcard_from(a, 0),
        c == '*' || c == '?' ==> wildcard_from(a + seq![c] + b, 0),
        c == '[' ==> wildcard_from(a + seq![c] + b, 0) == (b.len() > 0),
        c == '\\' && b.len() > 0 ==> wildcard_from(a + seq![c] + b, 0) == wildcard_from(
            b.skip(1),
            0,
        ),
        c == '\\' && b.len() == 0 ==> !wildcard_from(a + seq![c] + b, 0),
{
    let s = a + seq![c] + b;
    let n = a.len() as int;
    assert(s[n] == c);
    assert(a.take(n) =~= a);
    lemma_wildcard_behind(a, a, 0);
    assert forall|k: int| 0 <= k < n implies s[k] == a[k] by {
    }
    lemma_wildcard_behind(a, s, 0);
    if b.len() == 0 {
        assert(!wildcard_from(s, n + 1));
        assert(!wildcard_from(s, n + 2));
    }
    if c == '\\' && b.len() > 0 {
        lemma_wildcard_skip(s, n + 2, 0);
        assert(s.skip(n + 2) =~= b.skip(1));
    }
}

proof fn lemma_wildcard_behind(a: Seq<char>, s: Seq<char>, i: int)
    requires
        0 <= i <= a.len() <= s.len(),
        forall|k: int| 0 <= k < a.len() ==> !is_special(#[trigger] a[k]),
        forall|k: int| 0 <= k < a.len() ==> s[k] == #[trigger] a[k],
    ensures
        wildcard_from(s, i) == wildcard_from(s, a.len() as int),
    decreases a.len() - i,
{
    if i < a.len() {
        assert(s[i] == a[i]);
        lemma_wildcard_behind(a, s, i + 1);
    }
}

proof fn lemma_wildcard_skip(s: Seq<char>, d: int, i: int)
    requires
        0 <= d <= s.len(),
        0 <= i,
    ensures
        wildcard_from(s, d + i) == wildcard_from(s.skip(d), i),
    decreases s.len() + 1 - d - i,
{
    if d + i < s.len() {
        let c = s.skip(d)[i];
        if c == '\\' {
            lemma_wildcard_skip(s, d, i + 2);
        } else if !(c == '*' || c == '?' || (c == '[' && i + 1 < s.skip(d).len())) {
            lemma_wildcard_skip(s, d, i + 1);
        }
    }
}

/// A path below the working directory is written from there, and the working directory
/// itself as a point.
pub proof fn law_relative_paths(cwd: Seq<char>, rest: Seq<char>)
    requires
        cwd.len() > 0,
        cwd.last() != '/',
    ensures
        relative(cwd, cwd + seq!['/'] + rest) == rest,
        relative(cwd, cwd) == seq!['.'],
        relative(seq!['/'], seq!['/'] + rest) == rest,
{
    let p = cwd + seq!['/'];
    assert((p + rest).take(p.len() as int) =~= p);
    assert((p + rest).skip(p.len() as int) =~= rest);
    let r = seq!['/'];
    assert((r + rest).take(1) =~= r);
    assert((r + rest).skip(1) =~= rest);
}

} // verus!
