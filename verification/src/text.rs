//! Characters, strings and lists of strings: the vocabulary of the contracts in
//! this crate and the few executable helpers that everything else is built on.
use vstd::prelude::*;
use vstd::string::StringExecFns;
use vstd::utf8::encode_utf8;

verus! {

/// `String::push` appends one character.
pub assume_specification[ String::push ](s: &mut String, c: char)
    ensures
        final(s)@ == old(s)@.push(c),
;

/// `==` on string slices holds exactly when they hold the same characters.
pub assume_specification[ <str as PartialEq>::eq ](a: &str, b: &str) -> (r: bool)
    ensures
        r == (a@ == b@),
;

/// The contents of a list of strings.
pub open spec fn strs(v: Seq<String>) -> Seq<Seq<char>> {
    Seq::new(v.len(), |i: int| v[i]@)
}

/// The contents of a list of vectors.
pub open spec fn rows<T>(v: Seq<Vec<T>>) -> Seq<Seq<T>> {
    Seq::new(v.len(), |i: int| v[i]@)
}

/// A character with the Unicode property `White_Space`.
pub open spec fn is_space(c: char) -> bool {
    let n = c as u32;
    ||| 0x09 <= n <= 0x0d
    ||| n == 0x20
    ||| n == 0x85
    ||| n == 0xa0
    ||| n == 0x1680
    ||| 0x2000 <= n <= 0x200a
    ||| n == 0x2028
    ||| n == 0x2029
    ||| n == 0x202f
    ||| n == 0x205f
    ||| n == 0x3000
}

pub open spec fn is_digit(c: char) -> bool {
    '0' <= c <= '9'
}

pub open spec fn is_alpha(c: char) -> bool {
    ('a' <= c <= 'z') || ('A' <= c <= 'Z')
}

pub open spec fn is_alnum(c: char) -> bool {
    is_alpha(c) || is_digit(c)
}

/// The first position at or after `from` that holds `c`; the length where there is none.
pub open spec fn find_from<T>(s: Seq<T>, c: T, from: int) -> int
    decreases s.len() - from,
{
    if from < 0 || from >= s.len() {
        s.len() as int
    } else if s[from] == c {
        from
    } else {
        find_from(s, c, from + 1)
    }
}

/// The pieces of `s` from position `from` on, cut at each `c`.
pub open spec fn split_from<T>(s: Seq<T>, c: T, from: int) -> Seq<Seq<T>>
    decreases s.len() - from,
{
    let j = find_from(s, c, from);
    if 0 <= from <= j < s.len() {
        seq![s.subrange(from, j)] + split_from(s, c, j + 1)
    } else {
        seq![s.skip(from)]
    }
}

/// The pieces of `s` between the occurrences of `c`: one more than there are of those.
pub open spec fn split<T>(s: Seq<T>, c: T) -> Seq<Seq<T>> {
    split_from(s, c, 0)
}

/// The pieces from number `from` on, each but the first of these preceded by `sep`.
pub open spec fn join_from<T>(parts: Seq<Seq<T>>, sep: Seq<T>, from: int) -> Seq<T>
    decreases parts.len() - from,
{
    if from < 0 || from >= parts.len() {
        Seq::empty()
    } else if from + 1 == parts.len() {
        parts[from]
    } else {
        parts[from] + sep + join_from(parts, sep, from + 1)
    }
}

/// The pieces in order, with `sep` between neighbours.
pub open spec fn join<T>(parts: Seq<Seq<T>>, sep: Seq<T>) -> Seq<T> {
    join_from(parts, sep, 0)
}

/// `s` without the white space at both of its ends.
pub open spec fn trim(s: Seq<char>) -> Seq<char>
    decreases s.len(),
{
    if s.len() == 0 {
        s
    } else if is_space(s[0]) {
        trim(s.drop_first())
    } else if is_space(s.last()) {
        trim(s.drop_last())
    } else {
        s
    }
}

/// A line without the carriage return that may end it.
pub open spec fn chomp_cr(s: Seq<char>) -> Seq<char> {
    if s.len() > 0 && s.last() == '\r' {
        s.drop_last()
    } else {
        s
    }
}

/// The lines of a text from position `from` on: cut after each newline, without the
/// line ends; what follows the last newline is a line only where it is not empty.
pub open spec fn lines_from(s: Seq<char>, from: int) -> Seq<Seq<char>>
    decreases s.len() - from,
{
    let j = find_from(s, '\n', from);
    if from < 0 || from >= s.len() {
        Seq::empty()
    } else if from <= j < s.len() {
        seq![chomp_cr(s.subrange(from, j))] + lines_from(s, j + 1)
    } else {
        seq![s.skip(from)]
    }
}

/// The lines of a text.
pub open spec fn lines(s: Seq<char>) -> Seq<Seq<char>> {
    lines_from(s, 0)
}

/// The first position at or after `from` whose character is white space, or is not
/// (as `space` says); the length where there is none.
pub open spec fn find_space_from(s: Seq<char>, space: bool, from: int) -> int
    decreases s.len() - from,
{
    if from < 0 || from >= s.len() {
        s.len() as int
    } else if is_space(s[from]) == space {
        from
    } else {
        find_space_from(s, space, from + 1)
    }
}

/// The words of `s` from position `from` on: the longest runs without white space.
pub open spec fn words_from(s: Seq<char>, from: int) -> Seq<Seq<char>>
    decreases s.len() - from,
{
    let i = find_space_from(s, false, from);
    let j = find_space_from(s, true, i);
    if 0 <= from <= i < j <= s.len() {
        seq![s.subrange(i, j)] + words_from(s, j)
    } else {
        Seq::empty()
    }
}

/// The words of `s`.
pub open spec fn words(s: Seq<char>) -> Seq<Seq<char>> {
    words_from(s, 0)
}

/// `s` starts with `p`.
pub open spec fn starts_with<T>(s: Seq<T>, p: Seq<T>) -> bool {
    p.len() <= s.len() && s.take(p.len() as int) == p
}

/// `s` ends with `p`.
pub open spec fn ends_with<T>(s: Seq<T>, p: Seq<T>) -> bool {
    p.len() <= s.len() && s.skip(s.len() - p.len()) == p
}

/// `p` stands in `s` at position `i`.
pub open spec fn occurs_at<T>(s: Seq<T>, p: Seq<T>, i: int) -> bool {
    0 <= i && i + p.len() <= s.len() && s.subrange(i, i + p.len()) == p
}

/// The first position at or after `from` where `p` stands in `s`.
pub open spec fn find_sub_from<T>(s: Seq<T>, p: Seq<T>, from: int) -> Option<int>
    decreases s.len() + 1 - from,
{
    if from < 0 || from > s.len() {
        None
    } else if occurs_at(s, p, from) {
        Some(from)
    } else {
        find_sub_from(s, p, from + 1)
    }
}

/// `p` stands somewhere in `s`.
pub open spec fn contains_sub<T>(s: Seq<T>, p: Seq<T>) -> bool {
    exists|i: int| occurs_at(s, p, i)
}

/// `n` copies of `c`.
pub open spec fn repeated<T>(c: T, n: int) -> Seq<T> {
    Seq::new(if n < 0 { 0 } else { n as nat }, |i: int| c)
}

/// `s` behind as many blanks as bring it to `width` characters.
pub open spec fn pad_left(s: Seq<char>, width: int) -> Seq<char> {
    repeated(' ', width - s.len()) + s
}

/// `s` before as many blanks as bring it to `width` characters.
pub open spec fn pad_right(s: Seq<char>, width: int) -> Seq<char> {
    s + repeated(' ', width - s.len())
}

/// The last of the pieces of a path.
pub open spec fn basename(path: Seq<char>) -> Seq<char> {
    split(path, '/').last()
}

/// `a` comes before `b`, or equals it, when characters are compared from the left by
/// their code points. It is also the order of the UTF-8 encodings.
pub open spec fn lex_le(a: Seq<char>, b: Seq<char>) -> bool
    decreases a.len(),
{
    if a.len() == 0 {
        true
    } else if b.len() == 0 {
        false
    } else if a[0] == b[0] {
        lex_le(a.drop_first(), b.drop_first())
    } else {
        a[0] < b[0]
    }
}

// ---------------------------------------------------------------------------
// Facts
// ---------------------------------------------------------------------------

pub proof fn lemma_find_from<T>(s: Seq<T>, c: T, from: int)
    requires
        0 <= from <= s.len(),
    ensures
        from <= find_from(s, c, from) <= s.len(),
        find_from(s, c, from) < s.len() ==> s[find_from(s, c, from)] == c,
        forall|k: int| from <= k < find_from(s, c, from) ==> s[k] != c,
    decreases s.len() - from,
{
    if from < s.len() && s[from] != c {
        lemma_find_from(s, c, from + 1);
    }
}

/// A position with `c` before which there is none is the first one.
pub proof fn lemma_find_is<T>(s: Seq<T>, c: T, from: int, at: int)
    requires
        0 <= from <= at <= s.len(),
        at < s.len() ==> s[at] == c,
        forall|k: int| from <= k < at ==> s[k] != c,
    ensures
        find_from(s, c, from) == at,
    decreases s.len() - from,
{
    if from < at {
        lemma_find_is(s, c, from + 1, at);
    }
}

pub proof fn lemma_strs_push(v: Seq<String>, s: String)
    ensures
        strs(v.push(s)) == strs(v).push(s@),
{
    assert(strs(v.push(s)) =~= strs(v).push(s@));
}

pub proof fn lemma_rows_push<T>(v: Seq<Vec<T>>, s: Vec<T>)
    ensures
        rows(v.push(s)) == rows(v).push(s@),
{
    assert(rows(v.push(s)) =~= rows(v).push(s@));
}

/// `lex_le` is reflexive.
pub proof fn lemma_lex_refl(a: Seq<char>)
    ensures
        lex_le(a, a),
    decreases a.len(),
{
    if a.len() > 0 {
        lemma_lex_refl(a.drop_first());
    }
}

/// `lex_le` is total.
pub proof fn lemma_lex_total(a: Seq<char>, b: Seq<char>)
    ensures
        lex_le(a, b) || lex_le(b, a),
    decreases a.len(),
{
    if a.len() > 0 && b.len() > 0 && a[0] == b[0] {
        lemma_lex_total(a.drop_first(), b.drop_first());
    }
}

/// `lex_le` is transitive.
pub proof fn lemma_lex_trans(a: Seq<char>, b: Seq<char>, c: Seq<char>)
    requires
        lex_le(a, b),
        lex_le(b, c),
    ensures
        lex_le(a, c),
    decreases a.len(),
{
    if a.len() > 0 && b.len() > 0 && c.len() > 0 && a[0] == b[0] && b[0] == c[0] {
        lemma_lex_trans(a.drop_first(), b.drop_first(), c.drop_first());
    }
}

/// Two texts that are each at most the other are one text.
pub proof fn lemma_lex_antisym(a: Seq<char>, b: Seq<char>)
    requires
        lex_le(a, b),
        lex_le(b, a),
    ensures
        a == b,
    decreases a.len(),
{
    if a.len() > 0 && b.len() > 0 {
        lemma_lex_antisym(a.drop_first(), b.drop_first());
        assert(a =~= seq![a[0]] + a.drop_first());
        assert(b =~= seq![b[0]] + b.drop_first());
    } else {
        assert(a =~= b);
    }
}

// ---------------------------------------------------------------------------
// Executable helpers
// ---------------------------------------------------------------------------

/// The characters of a string.
pub fn to_chars(s: &str) -> (r: Vec<char>)
    ensures
        r@ == s@,
{
    let mut out: Vec<char> = Vec::new();
    for c in it: s.chars()
        invariant
            out@ == s@.take(it.index() as int),
            it.seq() == s@,
    {
        proof {
            assert(s@.take(it.index() + 1) == s@.take(it.index() as int).push(c));
        }
        out.push(c);
    }
    proof {
        assert(s@.take(s@.len() as int) == s@);
    }
    out
}

/// The string that holds the given characters.
pub fn to_text(cs: &[char]) -> (r: String)
    ensures
        r@ == cs@,
{
    let mut out: String = String::new();
    let mut i: usize = 0;
    while i < cs.len()
        invariant
            i <= cs.len(),
            out@ == cs@.take(i as int),
        decreases cs.len() - i,
    {
        proof {
            assert(cs@.take(i + 1) == cs@.take(i as int).push(cs@[i as int]));
        }
        out.push(cs[i]);
        i += 1;
    }
    proof {
        assert(cs@.take(cs@.len() as int) == cs@);
    }
    out
}

pub fn str_eq(a: &str, b: &str) -> (r: bool)
    ensures
        r == (a@ == b@),
{
    *a == *b
}

/// A copy of part of a slice.
pub fn part<T: Copy>(s: &[T], from: usize, to: usize) -> (r: Vec<T>)
    requires
        from <= to <= s@.len(),
    ensures
        r@ == s@.subrange(from as int, to as int),
{
    let mut out: Vec<T> = Vec::new();
    let mut i: usize = from;
    while i < to
        invariant
            from <= i <= to <= s@.len(),
            out@ == s@.subrange(from as int, i as int),
        decreases to - i,
    {
        proof {
            assert(s@.subrange(from as int, i + 1) == s@.subrange(from as int, i as int).push(
                s@[i as int],
            ));
        }
        out.push(s[i]);
        i += 1;
    }
    out
}

/// Part of a text, as a string.
pub fn text_part(s: &[char], from: usize, to: usize) -> (r: String)
    requires
        from <= to <= s@.len(),
    ensures
        r@ == s@.subrange(from as int, to as int),
{
    let cs = part(s, from, to);
    to_text(&cs)
}

/// Appends a slice.
pub fn append_all<T: Copy>(out: &mut Vec<T>, s: &[T])
    ensures
        final(out)@ == old(out)@ + s@,
{
    let mut i: usize = 0;
    while i < s.len()
        invariant
            i <= s@.len(),
            out@ == old(out)@ + s@.take(i as int),
        decreases s.len() - i,
    {
        proof {
            assert(old(out)@ + s@.take(i + 1) == (old(out)@ + s@.take(i as int)).push(s@[i as int]));
        }
        out.push(s[i]);
        i += 1;
    }
    proof {
        assert(s@.take(s@.len() as int) == s@);
    }
}

/// Appends characters to a string.
pub fn push_chars(out: &mut String, s: &[char])
    ensures
        final(out)@ == old(out)@ + s@,
{
    let t = to_text(s);
    out.append(t.as_str());
}

pub fn char_is_space(c: char) -> (r: bool)
    ensures
        r == is_space(c),
{
    let n: u32 = c as u32;
    (n >= 0x09 && n <= 0x0d) || n == 0x20 || n == 0x85 || n == 0xa0 || n == 0x1680 || (n >= 0x2000
        && n <= 0x200a) || n == 0x2028 || n == 0x2029 || n == 0x202f || n == 0x205f || n == 0x3000
}

pub fn char_is_digit(c: char) -> (r: bool)
    ensures
        r == is_digit(c),
{
    c >= '0' && c <= '9'
}

pub fn char_is_alpha(c: char) -> (r: bool)
    ensures
        r == is_alpha(c),
{
    (c >= 'a' && c <= 'z') || (c >= 'A' && c <= 'Z')
}

/// Finds a character at or after a position.
pub fn find_char(s: &[char], c: char, from: usize) -> (r: usize)
    requires
        from <= s@.len(),
    ensures
        r == find_from(s@, c, from as int),
        from <= r <= s@.len(),
{
    let mut i: usize = from;
    while i < s.len() && s[i] != c
        invariant
            from <= i <= s@.len(),
            find_from(s@, c, from as int) == find_from(s@, c, i as int),
        decreases s.len() - i,
    {
        i += 1;
    }
    i
}

/// Finds a byte at or after a position.
pub fn find_byte(s: &[u8], c: u8, from: usize) -> (r: usize)
    requires
        from <= s@.len(),
    ensures
        r == find_from(s@, c, from as int),
        from <= r <= s@.len(),
{
    let mut i: usize = from;
    while i < s.len() && s[i] != c
        invariant
            from <= i <= s@.len(),
            find_from(s@, c, from as int) == find_from(s@, c, i as int),
        decreases s.len() - i,
    {
        i += 1;
    }
    i
}

/// Cuts a text at each occurrence of a character.
pub fn split_chars(s: &[char], c: char) -> (r: Vec<Vec<char>>)
    ensures
        rows(r@) == split(s@, c),
{
    let mut out: Vec<Vec<char>> = Vec::new();
    let mut i: usize = 0;
    loop
        invariant
            i <= s@.len(),
            rows(out@) + split_from(s@, c, i as int) == split(s@, c),
        decreases s@.len() - i,
    {
        let j = find_char(s, c, i);
        let piece = part(s, i, j);
        let ghost before = out@;
        proof {
            lemma_find_from(s@, c, i as int);
            lemma_rows_push(before, piece);
        }
        out.push(piece);
        if j < s.len() {
            proof {
                assert(rows(before).push(piece@) + split_from(s@, c, j + 1) =~= rows(before)
                    + split_from(s@, c, i as int));
            }
            i = j + 1;
        } else {
            proof {
                assert(s@.subrange(i as int, j as int) =~= s@.skip(i as int));
                assert(rows(before).push(piece@) =~= rows(before) + split_from(s@, c, i as int));
            }
            return out;
        }
    }
}

/// Cuts a byte string at each occurrence of a byte.
pub fn split_bytes(s: &[u8], c: u8) -> (r: Vec<Vec<u8>>)
    ensures
        rows(r@) == split(s@, c),
{
    let mut out: Vec<Vec<u8>> = Vec::new();
    let mut i: usize = 0;
    loop
        invariant
            i <= s@.len(),
            rows(out@) + split_from(s@, c, i as int) == split(s@, c),
        decreases s@.len() - i,
    {
        let j = find_byte(s, c, i);
        let piece = part(s, i, j);
        let ghost before = out@;
        proof {
            lemma_find_from(s@, c, i as int);
            lemma_rows_push(before, piece);
        }
        out.push(piece);
        if j < s.len() {
            proof {
                assert(rows(before).push(piece@) + split_from(s@, c, j + 1) =~= rows(before)
                    + split_from(s@, c, i as int));
            }
            i = j + 1;
        } else {
            proof {
                assert(s@.subrange(i as int, j as int) =~= s@.skip(i as int));
                assert(rows(before).push(piece@) =~= rows(before) + split_from(s@, c, i as int));
            }
            return out;
        }
    }
}

/// The lines of a text.
pub fn split_lines(s: &[char]) -> (r: Vec<Vec<char>>)
    ensures
        rows(r@) == lines(s@),
{
    let mut out: Vec<Vec<char>> = Vec::new();
    let mut i: usize = 0;
    while i < s.len()
        invariant
            i <= s@.len(),
            rows(out@) + lines_from(s@, i as int) == lines(s@),
        decreases s@.len() - i,
    {
        let j = find_char(s, '\n', i);
        let ghost before = out@;
        proof {
            lemma_find_from(s@, '\n', i as int);
        }
        if j < s.len() {
            let e: usize = if j > i && s[j - 1] == '\r' {
                j - 1
            } else {
                j
            };
            let piece = part(s, i, e);
            proof {
                assert(piece@ =~= chomp_cr(s@.subrange(i as int, j as int)));
                lemma_rows_push(before, piece);
                assert(rows(before).push(piece@) + lines_from(s@, j + 1) =~= rows(before)
                    + lines_from(s@, i as int));
            }
            out.push(piece);
            i = j + 1;
        } else {
            let piece = part(s, i, j);
            proof {
                assert(piece@ =~= s@.skip(i as int));
                lemma_rows_push(before, piece);
                assert(rows(before).push(piece@) =~= rows(before) + lines_from(s@, i as int));
            }
            out.push(piece);
            proof {
                assert(lines_from(s@, s@.len() as int) =~= Seq::<Seq<char>>::empty());
                assert(rows(out@) + lines_from(s@, s@.len() as int) =~= rows(out@));
            }
            i = s.len();
        }
    }
    proof {
        assert(rows(out@) + lines_from(s@, s@.len() as int) =~= rows(out@));
    }
    out
}

fn find_space(s: &[char], space: bool, from: usize) -> (r: usize)
    requires
        from <= s@.len(),
    ensures
        r == find_space_from(s@, space, from as int),
        from <= r <= s@.len(),
        r < s@.len() ==> is_space(s@[r as int]) == space,
{
    let mut i: usize = from;
    while i < s.len() && char_is_space(s[i]) != space
        invariant
            from <= i <= s@.len(),
            find_space_from(s@, space, from as int) == find_space_from(s@, space, i as int),
        decreases s.len() - i,
    {
        i += 1;
    }
    i
}

/// The words of a text.
pub fn split_words(s: &[char]) -> (r: Vec<Vec<char>>)
    ensures
        rows(r@) == words(s@),
{
    let mut out: Vec<Vec<char>> = Vec::new();
    let mut at: usize = 0;
    loop
        invariant
            at <= s@.len(),
            rows(out@) + words_from(s@, at as int) == words(s@),
        decreases s@.len() - at,
    {
        let i = find_space(s, false, at);
        if i >= s.len() {
            proof {
                assert(rows(out@) + words_from(s@, at as int) =~= rows(out@));
            }
            return out;
        }
        let j = find_space(s, true, i);
        let piece = part(s, i, j);
        let ghost before = out@;
        proof {
            assert(i < j) by {
                reveal_with_fuel(find_space_from, 2);
            }
            lemma_rows_push(before, piece);
            assert(rows(before).push(piece@) + words_from(s@, j as int) =~= rows(before)
                + words_from(s@, at as int));
        }
        out.push(piece);
        at = j;
    }
}

/// Takes the white space off both ends of a text.
pub fn trim_chars(s: &[char]) -> (r: Vec<char>)
    ensures
        r@ == trim(s@),
{
    let mut i: usize = 0;
    let mut j: usize = s.len();
    proof {
        assert(s@.subrange(0, s@.len() as int) =~= s@);
    }
    while i < j && char_is_space(s[i])
        invariant
            i <= j == s@.len(),
            trim(s@.subrange(i as int, j as int)) == trim(s@),
        decreases j - i,
    {
        proof {
            assert(s@.subrange(i as int, j as int).drop_first() =~= s@.subrange(i + 1, j as int));
        }
        i += 1;
    }
    while i < j && char_is_space(s[j - 1])
        invariant
            i <= j <= s@.len(),
            i < j ==> !is_space(s@[i as int]),
            trim(s@.subrange(i as int, j as int)) == trim(s@),
        decreases j - i,
    {
        proof {
            assert(s@.subrange(i as int, j as int).drop_last() =~= s@.subrange(i as int, j - 1));
        }
        j -= 1;
    }
    proof {
        let m = s@.subrange(i as int, j as int);
        assert(trim(m) =~= m);
    }
    part(s, i, j)
}

/// Joins texts.
pub fn join_chars(parts: &Vec<Vec<char>>, sep: &str) -> (r: String)
    ensures
        r@ == join(rows(parts@), sep@),
{
    let mut out: String = String::new();
    let mut i: usize = 0;
    let ghost ps = rows(parts@);
    proof {
        assert(out@ + join_from(ps, sep@, 0) =~= join_from(ps, sep@, 0));
    }
    while i < parts.len()
        invariant
            i <= parts.len(),
            ps == rows(parts@),
            out@ + join_from(ps, sep@, i as int) == join(ps, sep@),
        decreases parts.len() - i,
    {
        let ghost before = out@;
        push_chars(&mut out, &parts[i]);
        if i + 1 < parts.len() {
            out.append(sep);
            proof {
                assert(out@ + join_from(ps, sep@, i + 1) =~= before + join_from(ps, sep@, i as int));
            }
        } else {
            proof {
                assert(join_from(ps, sep@, i + 1) =~= Seq::<char>::empty());
                assert(out@ + join_from(ps, sep@, i + 1) =~= before + join_from(ps, sep@, i as int));
            }
        }
        i += 1;
    }
    proof {
        assert(out@ + join_from(ps, sep@, i as int) =~= out@);
    }
    out
}

/// Joins the strings of a list from a position on.
pub fn join_strings(parts: &Vec<String>, start: usize, sep: &str) -> (r: String)
    requires
        start <= parts@.len(),
    ensures
        r@ == join(strs(parts@).skip(start as int), sep@),
{
    let mut out: String = String::new();
    let mut i: usize = start;
    let ghost ps = strs(parts@).skip(start as int);
    proof {
        assert(out@ + join_from(ps, sep@, 0) =~= join_from(ps, sep@, 0));
    }
    while i < parts.len()
        invariant
            start <= i <= parts.len(),
            ps == strs(parts@).skip(start as int),
            out@ + join_from(ps, sep@, i - start) == join(ps, sep@),
        decreases parts.len() - i,
    {
        let ghost before = out@;
        out.append(parts[i].as_str());
        if i + 1 < parts.len() {
            out.append(sep);
            proof {
                assert(out@ + join_from(ps, sep@, i + 1 - start) =~= before + join_from(
                    ps,
                    sep@,
                    i - start,
                ));
            }
        } else {
            proof {
                assert(join_from(ps, sep@, i + 1 - start) =~= Seq::<char>::empty());
                assert(out@ + join_from(ps, sep@, i + 1 - start) =~= before + join_from(
                    ps,
                    sep@,
                    i - start,
                ));
            }
        }
        i += 1;
    }
    proof {
        assert(out@ + join_from(ps, sep@, i - start) =~= out@);
    }
    out
}

/// Tests whether a slice stands in another at a position.
pub fn chars_at(s: &[char], p: &[char], i: usize) -> (r: bool)
    ensures
        r == occurs_at(s@, p@, i as int),
{
    if i > s.len() || p.len() > s.len() - i {
        return false;
    }
    let mut k: usize = 0;
    while k < p.len()
        invariant
            k <= p@.len(),
            i + p@.len() <= s.len() == s@.len(),
            forall|m: int| 0 <= m < k ==> s@[i + m] == p@[m],
        decreases p@.len() - k,
    {
        if s[i + k] != p[k] {
            proof {
                assert(s@.subrange(i as int, i + p@.len())[k as int] != p@[k as int]);
            }
            return false;
        }
        k += 1;
    }
    proof {
        assert(s@.subrange(i as int, i + p@.len()) =~= p@);
    }
    true
}

pub proof fn lemma_find_sub<T>(s: Seq<T>, p: Seq<T>, from: int)
    requires
        0 <= from,
    ensures
        match find_sub_from(s, p, from) {
            Some(at) => from <= at && occurs_at(s, p, at) && forall|k: int|
                from <= k < at ==> !occurs_at(s, p, k),
            None => forall|k: int| from <= k ==> !occurs_at(s, p, k),
        },
    decreases s.len() + 1 - from,
{
    if from <= s.len() && !occurs_at(s, p, from) {
        lemma_find_sub(s, p, from + 1);
    }
}

/// Finds a text in another at or after a position.
pub fn find_chars(s: &[char], p: &[char], from: usize) -> (r: Option<usize>)
    requires
        from <= s@.len(),
    ensures
        match r {
            Some(at) => find_sub_from(s@, p@, from as int) == Some(at as int) && from <= at
                && occurs_at(s@, p@, at as int) && at + p@.len() <= usize::MAX,
            None => find_sub_from(s@, p@, from as int) is None,
        },
{
    let mut i: usize = from;
    loop
        invariant
            from <= i <= s@.len() == s.len(),
            find_sub_from(s@, p@, from as int) == find_sub_from(s@, p@, i as int),
        decreases s@.len() - i,
    {
        if chars_at(s, p, i) {
            return Some(i);
        }
        if i >= s.len() {
            proof {
                assert(find_sub_from(s@, p@, i + 1) is None);
            }
            return None;
        }
        i += 1;
    }
}

/// Tests whether a text stands in another.
pub fn contains_chars(s: &[char], p: &[char]) -> (r: bool)
    ensures
        r == contains_sub(s@, p@),
{
    proof {
        lemma_find_sub(s@, p@, 0);
    }
    match find_chars(s, p, 0) {
        Some(at) => {
            proof {
                assert(occurs_at(s@, p@, at as int));
            }
            true
        },
        None => {
            proof {
                assert forall|k: int| !occurs_at(s@, p@, k) by {
                    if k >= 0 {
                    }
                }
            }
            false
        },
    }
}

/// `n` blanks.
pub fn blanks(n: usize) -> (r: String)
    ensures
        r@ == repeated(' ', n as int),
{
    let mut out: String = String::new();
    let mut i: usize = 0;
    while i < n
        invariant
            i <= n,
            out@ =~= repeated(' ', i as int),
        decreases n - i,
    {
        out.push(' ');
        i += 1;
    }
    out
}

/// Pads a text on the left.
pub fn padded_left(s: &[char], width: usize) -> (r: String)
    ensures
        r@ == pad_left(s@, width as int),
{
    let n: usize = if s.len() < width {
        width - s.len()
    } else {
        0
    };
    let mut out = blanks(n);
    push_chars(&mut out, s);
    proof {
        assert(repeated(' ', width - s@.len()) =~= repeated(' ', n as int));
    }
    out
}

/// Pads a text on the right.
pub fn padded_right(s: &[char], width: usize) -> (r: String)
    ensures
        r@ == pad_right(s@, width as int),
{
    let n: usize = if s.len() < width {
        width - s.len()
    } else {
        0
    };
    let mut out = to_text(s);
    let b = blanks(n);
    out.append(b.as_str());
    proof {
        assert(repeated(' ', width - s@.len()) =~= repeated(' ', n as int));
    }
    out
}

/// Compares two texts by their code points.
pub fn chars_le(a: &[char], b: &[char]) -> (r: bool)
    ensures
        r == lex_le(a@, b@),
{
    let mut i: usize = 0;
    proof {
        assert(a@.skip(0) =~= a@);
        assert(b@.skip(0) =~= b@);
    }
    while i < a.len() && i < b.len() && a[i] == b[i]
        invariant
            i <= a@.len(),
            i <= b@.len(),
            lex_le(a@.skip(i as int), b@.skip(i as int)) == lex_le(a@, b@),
        decreases a.len() - i,
    {
        proof {
            assert(a@.skip(i as int).drop_first() =~= a@.skip(i + 1));
            assert(b@.skip(i as int).drop_first() =~= b@.skip(i + 1));
        }
        i += 1;
    }
    if i >= a.len() {
        true
    } else if i >= b.len() {
        false
    } else {
        a[i] < b[i]
    }
}

/// The part of a path behind its last slash.
pub fn last_part(path: &str) -> (r: String)
    ensures
        r@ == basename(path@),
{
    let cs = to_chars(path);
    let parts = split_chars(&cs, '/');
    proof {
        lemma_has_parts(cs@, 0);
        assert(rows(parts@).len() == parts@.len());
    }
    to_text(&parts[parts.len() - 1])
}

proof fn lemma_has_parts(s: Seq<char>, from: int)
    ensures
        split_from(s, '/', from).len() > 0,
    decreases s.len() - from,
{
}

/// Copies of the strings of a list from a position on.
pub fn strings_from(v: &Vec<String>, from: usize) -> (r: Vec<String>)
    requires
        from <= v@.len(),
    ensures
        strs(r@) == strs(v@).skip(from as int),
{
    let mut r: Vec<String> = Vec::new();
    let mut i = from;
    proof {
        assert(strs(r@) =~= strs(v@).subrange(from as int, from as int));
    }
    while i < v.len()
        invariant
            from <= i <= v@.len(),
            strs(r@) == strs(v@).subrange(from as int, i as int),
        decreases v@.len() - i,
    {
        let ghost before = r@;
        let s = v[i].clone();
        r.push(s);
        proof {
            lemma_strs_push(before, s);
            assert(strs(v@).subrange(from as int, i + 1) =~= strs(v@).subrange(
                from as int,
                i as int,
            ).push(v@[i as int]@));
        }
        i += 1;
    }
    proof {
        assert(strs(v@).subrange(from as int, i as int) =~= strs(v@).skip(from as int));
    }
    r
}

/// Pieces behind a first one are joined as they are without it.
pub proof fn lemma_join_behind<T>(first: Seq<T>, rest: Seq<Seq<T>>, sep: Seq<T>, k: int)
    requires
        0 <= k <= rest.len(),
    ensures
        join_from(seq![first] + rest, sep, k + 1) == join_from(rest, sep, k),
    decreases rest.len() - k,
{
    let all = seq![first] + rest;
    if k < rest.len() {
        assert(all[k + 1] == rest[k]);
        lemma_join_behind(first, rest, sep, k + 1);
    }
}

/// Joining the pieces that a text was split into gives the text back.
pub proof fn law_split_joins<T>(s: Seq<T>, c: T)
    ensures
        join(split(s, c), seq![c]) == s,
{
    lemma_split_joins(s, c, 0);
    assert(s.skip(0) =~= s);
}

proof fn lemma_split_joins<T>(s: Seq<T>, c: T, from: int)
    requires
        0 <= from <= s.len(),
    ensures
        split_from(s, c, from).len() > 0,
        join_from(split_from(s, c, from), seq![c], 0) == s.skip(from),
    decreases s.len() - from,
{
    lemma_find_from(s, c, from);
    let j = find_from(s, c, from);
    if from <= j < s.len() {
        lemma_split_joins(s, c, j + 1);
        let rest = split_from(s, c, j + 1);
        lemma_join_behind(s.subrange(from, j), rest, seq![c], 0);
        assert(s.skip(from) =~= s.subrange(from, j) + seq![c] + s.skip(j + 1));
    }
}

/// Appends the bytes of a text.
pub fn append_text(out: &mut Vec<u8>, s: &str)
    ensures
        final(out)@ == old(out)@ + encode_utf8(s@),
{
    append_all(out, s.as_bytes());
}

/// Appends the bytes of a character.
pub fn append_char(out: &mut Vec<u8>, c: char)
    ensures
        final(out)@ == old(out)@ + encode_utf8(seq![c]),
{
    let mut s = String::new();
    s.push(c);
    proof {
        assert(s@ =~= seq![c]);
    }
    append_text(out, s.as_str());
}

/// The bytes of two texts are the bytes of the first and those of the second.
pub proof fn lemma_encode_joined(a: Seq<char>, b: Seq<char>)
    ensures
        encode_utf8(a + b) == encode_utf8(a) + encode_utf8(b),
    decreases a.len(),
{
    if a.len() == 0 {
        assert(a + b =~= b);
        assert(encode_utf8(a) + encode_utf8(b) =~= encode_utf8(b));
    } else {
        assert((a + b).drop_first() =~= a.drop_first() + b);
        lemma_encode_joined(a.drop_first(), b);
        assert(encode_utf8(a + b) =~= encode_utf8(a) + encode_utf8(b));
    }
}

/// Texts are ordered by the first place at which they differ, and a text comes before
/// the longer ones that it starts.
pub proof fn law_first_difference_decides(a: Seq<char>, b: Seq<char>, i: int)
    requires
        0 <= i <= a.len() && i <= b.len(),
        forall|k: int| 0 <= k < i ==> a[k] == b[k],
    ensures
        i < a.len() && i < b.len() && a[i] < b[i] ==> lex_le(a, b) && !lex_le(b, a),
        i == a.len() && i < b.len() ==> lex_le(a, b) && !lex_le(b, a),
        i == a.len() && i == b.len() ==> lex_le(a, b) && lex_le(b, a),
    decreases i,
{
    if i > 0 {
        assert(a[0] == b[0]);
        law_first_difference_decides(a.drop_first(), b.drop_first(), i - 1);
    }
}

/// Splitting what pieces were joined to gives the pieces back, where none holds the
/// separator.
pub proof fn law_joined_is_split<T>(parts: Seq<Seq<T>>, c: T)
    requires
        parts.len() > 0,
        forall|i: int, k: int|
            0 <= i < parts.len() && 0 <= k < parts[i].len() ==> #[trigger] parts[i][k] != c,
    ensures
        split(join(parts, seq![c]), c) == parts,
{
    let s = join(parts, seq![c]);
    assert(s.skip(0) =~= s);
    lemma_joined_is_split(s, parts, c, 0, 0);
    assert(parts.skip(0) =~= parts);
}

proof fn lemma_joined_is_split<T>(s: Seq<T>, parts: Seq<Seq<T>>, c: T, i: int, from: int)
    requires
        0 <= i < parts.len(),
        0 <= from <= s.len(),
        s.skip(from) == join_from(parts, seq![c], i),
        forall|i: int, k: int|
            0 <= i < parts.len() && 0 <= k < parts[i].len() ==> #[trigger] parts[i][k] != c,
    ensures
        split_from(s, c, from) == parts.skip(i),
    decreases parts.len() - i,
{
    let rest = s.skip(from);
    let n = parts[i].len() as int;
    lemma_find_from(s, c, from);
    let j = find_from(s, c, from);
    if i + 1 == parts.len() {
        if j < s.len() {
            assert(rest[j - from] == s[j]);
            assert(parts[i][j - from] != c);
        }
        assert(split_from(s, c, from) =~= parts.skip(i));
    } else {
        let tail = join_from(parts, seq![c], i + 1);
        assert(rest == parts[i] + seq![c] + tail);
        assert(s[from + n] == rest[n]);
        assert forall|k: int| from <= k < from + n implies s[k] != c by {
            assert(rest[k - from] == parts[i][k - from]);
        }
        lemma_find_is(s, c, from, from + n);
        assert(s.subrange(from, j) =~= parts[i]) by {
            assert forall|k: int| 0 <= k < n implies s.subrange(from, j)[k] == parts[i][k] by {
                assert(rest[k] == parts[i][k]);
            }
        }
        assert(s.skip(j + 1) =~= tail) by {
            assert forall|k: int| 0 <= k < tail.len() implies s.skip(j + 1)[k] == tail[k] by {
                assert(rest[n + 1 + k] == tail[k]);
            }
        }
        lemma_joined_is_split(s, parts, c, i + 1, j + 1);
        assert(split_from(s, c, from) =~= parts.skip(i));
    }
}

/// A piece that is joined behind others stands behind them and the separator.
pub proof fn law_join_grows<T>(parts: Seq<Seq<T>>, sep: Seq<T>, last: Seq<T>)
    ensures
        join(Seq::<Seq<T>>::empty(), sep).len() == 0,
        join(seq![last], sep) == last,
        parts.len() > 0 ==> join(parts.push(last), sep) == join(parts, sep) + sep + last,
{
    if parts.len() > 0 {
        lemma_join_grows(parts, sep, last, 0);
    }
}

proof fn lemma_join_grows<T>(parts: Seq<Seq<T>>, sep: Seq<T>, last: Seq<T>, i: int)
    requires
        0 <= i < parts.len(),
    ensures
        join_from(parts.push(last), sep, i) == join_from(parts, sep, i) + sep + last,
    decreases parts.len() - i,
{
    let all = parts.push(last);
    reveal_with_fuel(join_from, 2);
    assert(all[i] == parts[i]);
    if i + 1 < parts.len() {
        lemma_join_grows(parts, sep, last, i + 1);
        assert(parts[i] + sep + (join_from(parts, sep, i + 1) + sep + last) =~= (parts[i] + sep
            + join_from(parts, sep, i + 1)) + sep + last);
    } else {
        assert(all[i + 1] == last);
        assert(join_from(all, sep, i + 1) == last);
    }
}

/// Trimming takes the white space away at both ends, all of it and nothing else.
pub proof fn law_trim_takes_the_ends(a: Seq<char>, s: Seq<char>, b: Seq<char>)
    requires
        forall|k: int| 0 <= k < a.len() ==> is_space(#[trigger] a[k]),
        forall|k: int| 0 <= k < b.len() ==> is_space(#[trigger] b[k]),
        s.len() > 0 ==> !is_space(s[0]) && !is_space(s.last()),
    ensures
        trim(a + s + b) == s,
    decreases a.len() + b.len(),
{
    let all = a + s + b;
    if a.len() > 0 {
        assert(all[0] == a[0]);
        assert(all.drop_first() =~= a.drop_first() + s + b);
        law_trim_takes_the_ends(a.drop_first(), s, b);
    } else if b.len() > 0 {
        assert(all.last() == b.last());
        if s.len() > 0 {
            assert(all[0] == s[0]);
            assert(all.drop_last() =~= a + s + b.drop_last());
            law_trim_takes_the_ends(a, s, b.drop_last());
        } else {
            assert(all[0] == b[0]);
            assert(all.drop_first() =~= a + s + b.drop_first());
            law_trim_takes_the_ends(a, s, b.drop_first());
        }
    } else {
        assert(all =~= s);
    }
}

/// The lines of a text are its first line, up to the newline and without a carriage return
/// before it, and the lines of the rest.
pub proof fn law_lines_end_at_newlines(line: Seq<char>, rest: Seq<char>)
    requires
        forall|k: int| 0 <= k < line.len() ==> #[trigger] line[k] != '\n',
    ensures
        lines(Seq::<char>::empty()).len() == 0,
        line.len() > 0 ==> lines(line) == seq![line],
        line.len() == 0 || line.last() != '\r' ==> lines(line + seq!['\n'] + rest) == seq![line]
            + lines(rest),
        lines(line + seq!['\r', '\n'] + rest) == seq![line] + lines(rest),
{
    let n = line.len() as int;
    lemma_find_from(line, '\n', 0);
    if line.len() > 0 {
        assert(line.skip(0) =~= line);
        assert(lines(line) =~= seq![line]);
    }
    let plain = line + seq!['\n'];
    let s = plain + rest;
    assert forall|k: int| 0 <= k < n implies s[k] != '\n' by {
        assert(s[k] == line[k]);
    }
    lemma_find_is(s, '\n', 0, n);
    assert(s.subrange(0, n) =~= line);
    lemma_lines_behind(plain, rest, 0);
    assert(lines_from(s, n + 1) == lines(rest));
    let with_cr = line + seq!['\r', '\n'];
    let t = with_cr + rest;
    assert forall|k: int| 0 <= k < n + 1 implies t[k] != '\n' by {
        if k < n {
            assert(t[k] == line[k]);
        }
    }
    lemma_find_is(t, '\n', 0, n + 1);
    assert(t.subrange(0, n + 1) =~= line.push('\r'));
    assert(line.push('\r').drop_last() =~= line);
    lemma_lines_behind(with_cr, rest, 0);
    assert(lines_from(t, n + 2) == lines(rest));
}

/// What stands before a text moves the places in it.
pub proof fn lemma_find_behind<T>(a: Seq<T>, b: Seq<T>, c: T, i: int)
    requires
        0 <= i <= b.len(),
    ensures
        find_from(a + b, c, a.len() + i) == a.len() + find_from(b, c, i),
    decreases b.len() - i,
{
    if i < b.len() {
        assert((a + b)[a.len() + i] == b[i]);
        lemma_find_behind(a, b, c, i + 1);
    }
}

proof fn lemma_lines_behind(a: Seq<char>, b: Seq<char>, i: int)
    requires
        0 <= i <= b.len(),
    ensures
        lines_from(a + b, a.len() + i) == lines_from(b, i),
    decreases b.len() - i,
{
    lemma_find_behind(a, b, '\n', i);
    lemma_find_from(b, '\n', i);
    let j = find_from(b, '\n', i);
    let n = a.len() as int;
    if i < b.len() {
        if j < b.len() {
            lemma_lines_behind(a, b, j + 1);
            assert((a + b).subrange(n + i, n + j) =~= b.subrange(i, j));
            assert(n + j + 1 == n + (j + 1));
        } else {
            assert((a + b).skip(n + i) =~= b.skip(i));
        }
    }
}

/// A text without white space is one word, white space alone holds none, and white space
/// between two texts parts the words of the first from those of the second.
pub proof fn law_words_are_parted_by_space(w: Seq<char>, c: char, b: Seq<char>)
    requires
        is_space(c),
        forall|k: int| 0 <= k < w.len() ==> !is_space(#[trigger] w[k]),
    ensures
        words(Seq::<char>::empty()).len() == 0,
        w.len() > 0 ==> words(w) == seq![w],
        words(seq![c] + b) == words(b),
        w.len() > 0 ==> words(w + seq![c] + b) == seq![w] + words(b),
{
    let none = Seq::<char>::empty();
    assert(find_space_from(none, false, 0) == 0);
    assert(words(none) =~= Seq::<Seq<char>>::empty());
    lemma_words_skip(seq![c], b);
    if w.len() > 0 {
        let n = w.len() as int;
        lemma_run(w, true, 0, n);
        lemma_run(w, false, 0, 0);
        assert(find_space_from(w, true, n) == n);
        assert(w.subrange(0, n) =~= w);
        assert(find_space_from(w, false, n) == n);
        assert(words_from(w, n) =~= Seq::<Seq<char>>::empty());
        assert(words(w) =~= seq![w]);
        let s = w + seq![c] + b;
        assert forall|k: int| 0 <= k < n implies is_space(#[trigger] s[k]) != true by {
            assert(s[k] == w[k]);
        }
        lemma_run(s, true, 0, n);
        assert(s[n] == c);
        assert(s[0] == w[0]);
        assert(s.subrange(0, n) =~= w);
        assert(find_space_from(s, true, n) == n);
        assert(find_space_from(s, false, 0) == 0);
        assert(words(s) == seq![w] + words_from(s, n));
        assert(find_space_from(s, false, n) == find_space_from(s, false, n + 1));
        lemma_words_behind(w + seq![c], b, 0);
        assert(words_from(s, n + 1) == words(b));
        lemma_space_found(s, false, n + 1);
        assert(words_from(s, n) == words_from(s, n + 1));
    }
}

proof fn lemma_space_found(s: Seq<char>, space: bool, from: int)
    requires
        0 <= from <= s.len(),
    ensures
        from <= find_space_from(s, space, from) <= s.len(),
    decreases s.len() - from,
{
    if from < s.len() && is_space(s[from]) != space {
        lemma_space_found(s, space, from + 1);
    }
}

proof fn lemma_run(s: Seq<char>, space: bool, from: int, to: int)
    requires
        0 <= from <= to <= s.len(),
        forall|k: int| from <= k < to ==> is_space(#[trigger] s[k]) != space,
    ensures
        find_space_from(s, space, from) == find_space_from(s, space, to),
    decreases to - from,
{
    if from < to {
        assert(is_space(s[from]) != space);
        lemma_run(s, space, from + 1, to);
    }
}

proof fn lemma_space_behind(a: Seq<char>, b: Seq<char>, space: bool, i: int)
    requires
        0 <= i <= b.len(),
    ensures
        find_space_from(a + b, space, a.len() + i) == a.len() + find_space_from(b, space, i),
    decreases b.len() - i,
{
    if i < b.len() {
        assert((a + b)[a.len() + i] == b[i]);
        lemma_space_behind(a, b, space, i + 1);
    }
}

proof fn lemma_words_behind(a: Seq<char>, b: Seq<char>, from: int)
    requires
        0 <= from <= b.len(),
    ensures
        words_from(a + b, a.len() + from) == words_from(b, from),
    decreases b.len() - from,
{
    let i = find_space_from(b, false, from);
    let j = find_space_from(b, true, i);
    let n = a.len() as int;
    lemma_space_found(b, false, from);
    lemma_space_found(b, true, i);
    lemma_space_behind(a, b, false, from);
    lemma_space_behind(a, b, true, i);
    if i < j {
        assert((a + b).subrange(n + i, n + j) =~= b.subrange(i, j));
        lemma_words_behind(a, b, j);
    }
}

proof fn lemma_words_skip(a: Seq<char>, b: Seq<char>)
    requires
        a.len() == 1 && is_space(a[0]),
    ensures
        words(a + b) == words(b),
{
    let s = a + b;
    assert(s[0] == a[0]);
    assert(find_space_from(s, false, 0) == find_space_from(s, false, 1));
    lemma_words_behind(a, b, 0);
    lemma_space_found(s, false, 1);
    assert(words_from(s, 0) == words_from(s, 1));
}

/// Padding brings a text to a width with blanks before or behind it, and leaves one that is
/// as wide already.
pub proof fn law_padding(s: Seq<char>, width: int)
    ensures
        pad_left(s, width).len() == if width > s.len() {
            width
        } else {
            s.len() as int
        },
        pad_right(s, width).len() == pad_left(s, width).len(),
        pad_left(s, width).skip(pad_left(s, width).len() - s.len()) == s,
        pad_right(s, width).take(s.len() as int) == s,
        forall|k: int|
            0 <= k < pad_left(s, width).len() - s.len() ==> #[trigger] pad_left(s, width)[k] == ' ',
        forall|k: int|
            s.len() <= k < pad_right(s, width).len() ==> #[trigger] pad_right(s, width)[k] == ' ',
{
    assert(pad_left(s, width).skip(pad_left(s, width).len() - s.len()) =~= s);
    assert(pad_right(s, width).take(s.len() as int) =~= s);
}

/// The last name of a path is what stands behind its last slash.
pub proof fn law_basename_is_behind_the_last_slash(dir: Seq<char>, name: Seq<char>)
    requires
        forall|k: int| 0 <= k < name.len() ==> #[trigger] name[k] != '/',
    ensures
        basename(name) == name,
        basename(dir + seq!['/'] + name) == name,
{
    lemma_find_from(name, '/', 0);
    assert(name.skip(0) =~= name);
    assert(split(name, '/') =~= seq![name]);
    let path = dir + seq!['/'] + name;
    assert(path.skip(dir.len() as int + 1) =~= name);
    lemma_last_piece(path, dir.len() as int, name, 0);
}

proof fn lemma_last_piece(s: Seq<char>, at: int, name: Seq<char>, from: int)
    requires
        0 <= from <= at < s.len(),
        s[at] == '/',
        s.skip(at + 1) == name,
        forall|k: int| 0 <= k < name.len() ==> #[trigger] name[k] != '/',
    ensures
        split_from(s, '/', from).len() > 0,
        split_from(s, '/', from).last() == name,
    decreases s.len() - from,
{
    lemma_find_from(s, '/', from);
    let j = find_from(s, '/', from);
    assert(j <= at);
    if j < at {
        lemma_last_piece(s, at, name, j + 1);
    } else {
        lemma_find_from(s, '/', at + 1);
        let k = find_from(s, '/', at + 1);
        if k < s.len() {
            assert(s.skip(at + 1)[k - at - 1] == s[k]);
        }
        assert(split_from(s, '/', at + 1) =~= seq![name]);
    }
}

/// The digits are the characters from 0 to 9, the letters those from a to z and from A to Z,
/// and the blank, the tab and the line ends are white space.
pub proof fn law_kinds_of_characters(c: char)
    ensures
        is_digit(c) == ('0' <= c && c <= '9'),
        is_alpha(c) == (('a' <= c && c <= 'z') || ('A' <= c && c <= 'Z')),
        is_alnum(c) == (is_digit(c) || is_alpha(c)),
        is_space(' ') && is_space('\t') && is_space('\n') && is_space('\r'),
        '!' <= c && c <= '~' ==> !is_space(c),
{
}

proof fn lemma_split_behind<T>(a: Seq<T>, b: Seq<T>, c: T, i: int)
    requires
        0 <= i <= b.len(),
    ensures
        split_from(a + b, c, a.len() + i) == split_from(b, c, i),
    decreases b.len() - i,
{
    lemma_find_behind(a, b, c, i);
    lemma_find_from(b, c, i);
    let j = find_from(b, c, i);
    let n = a.len() as int;
    if j < b.len() {
        lemma_split_behind(a, b, c, j + 1);
        assert((a + b).subrange(n + i, n + j) =~= b.subrange(i, j));
    } else {
        assert((a + b).skip(n + i) =~= b.skip(i));
    }
}

/// A separator between two texts parts the pieces of the first from those of the second.
pub proof fn law_split_at_a_separator<T>(a: Seq<T>, c: T, b: Seq<T>)
    ensures
        split(a + seq![c] + b, c) == split(a, c) + split(b, c),
{
    lemma_split_two(a, c, b, 0);
}

proof fn lemma_split_two<T>(a: Seq<T>, c: T, b: Seq<T>, from: int)
    requires
        0 <= from <= a.len(),
    ensures
        split_from(a + seq![c] + b, c, from) == split_from(a, c, from) + split(b, c),
    decreases a.len() - from,
{
    let s = a + seq![c] + b;
    let n = a.len() as int;
    lemma_find_from(a, c, from);
    let j = find_from(a, c, from);
    assert forall|k: int| from <= k < j implies s[k] != c by {
        assert(s[k] == a[k]);
    }
    assert(s[n] == c);
    if j < n {
        assert(s[j] == a[j]);
    }
    lemma_find_is(s, c, from, j);
    assert(s.subrange(from, j) =~= a.subrange(from, j));
    if j < n {
        lemma_split_two(a, c, b, j + 1);
        assert(split_from(s, c, from) =~= split_from(a, c, from) + split(b, c));
    } else {
        lemma_split_behind(a + seq![c], b, c, 0);
        assert(a.skip(from) =~= a.subrange(from, n));
        assert(split_from(s, c, from) =~= split_from(a, c, from) + split(b, c));
    }
}

} // verus!
