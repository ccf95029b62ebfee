//! Backslash escapes.
use vstd::prelude::*;

verus! {

pub open spec fn is_octal(c: char) -> bool {
    '0' <= c <= '7'
}

/// Where the octal digits that start at `from` end: at most three are read.
pub open spec fn octal_end(s: Seq<char>, from: int, i: int) -> int
    decreases s.len() - i,
{
    if i < 0 || i >= s.len() || i - from >= 3 || !is_octal(s[i]) {
        i
    } else {
        octal_end(s, from, i + 1)
    }
}

/// The value of octal digits.
pub open spec fn octal_value(s: Seq<char>) -> nat
    decreases s.len(),
{
    if s.len() == 0 {
        0
    } else {
        octal_value(s.drop_last()) * 8 + (s.last() as nat - 48) as nat
    }
}

/// What an escape stands for.
#[derive(Debug, Clone, Copy, PartialEq, Eq, Structural)]
pub enum Escape {
    /// This character.
    One(char),
    /// A backslash and this character: it is no escape.
    Kept(char),
    /// This value, which `\0` and up to three octal digits give.
    Code(u32),
}

/// What the escape at position `i` stands for, and where the text behind it starts.
pub open spec fn escape_at(s: Seq<char>, i: int) -> (Escape, int) {
    if i + 1 >= s.len() {
        (Escape::One('\\'), i + 1)
    } else {
        let c = s[i + 1];
        if c == 'n' {
            (Escape::One('\n'), i + 2)
        } else if c == 't' {
            (Escape::One('\t'), i + 2)
        } else if c == 'r' {
            (Escape::One('\r'), i + 2)
        } else if c == '\\' {
            (Escape::One('\\'), i + 2)
        } else if c == '0' {
            let j = octal_end(s, i + 2, i + 2);
            (Escape::Code(octal_value(s.subrange(i + 2, j)) as u32), j)
        } else {
            (Escape::Kept(c), i + 2)
        }
    }
}

/// Reads the escape at position `i`: what it stands for, and where the text behind it
/// starts.
pub fn read_escape(s: &Vec<char>, i: usize) -> (r: (Escape, usize))
    requires
        i < s@.len(),
    ensures
        (r.0, r.1 as int) == escape_at(s@, i as int),
        i < r.1 <= s@.len(),
        r.0 matches Escape::Code(v) ==> v < 512 && v == octal_value(
            s@.subrange(i + 2, r.1 as int),
        ),
{
    let n = s.len();
    if n - i < 2 {
        return (Escape::One('\\'), i + 1);
    }
    let c = s[i + 1];
    if c == '0' {
        let from = i + 2;
        let mut j: usize = from;
        let mut v: u32 = 0;
        proof {
            assert(s@.subrange(from as int, from as int) =~= Seq::<char>::empty());
        }
        while j < n && j - from < 3 && '0' <= s[j] && s[j] <= '7'
            invariant
                n == s@.len(),
                from <= j <= n,
                j - from <= 3,
                octal_end(s@, from as int, from as int) == octal_end(s@, from as int, j as int),
                v == octal_value(s@.subrange(from as int, j as int)),
                j - from == 0 ==> v == 0,
                j - from == 1 ==> v < 8,
                j - from == 2 ==> v < 64,
                j - from == 3 ==> v < 512,
            decreases n - j,
        {
            let d = s[j] as u32 - 48;
            v = v * 8 + d;
            proof {
                assert(s@.subrange(from as int, j + 1).drop_last() =~= s@.subrange(
                    from as int,
                    j as int,
                ));
            }
            j += 1;
        }
        return (Escape::Code(v), j);
    }
    let e = if c == 'n' {
        Escape::One('\n')
    } else if c == 't' {
        Escape::One('\t')
    } else if c == 'r' {
        Escape::One('\r')
    } else if c == '\\' {
        Escape::One('\\')
    } else {
        Escape::Kept(c)
    };
    (e, i + 2)
}

proof fn lemma_octal_shift(a: Seq<char>, b: Seq<char>, from: int, i: int)
    requires
        0 <= from <= i <= b.len(),
    ensures
        octal_end(a + b, a.len() + from, a.len() + i) == a.len() + octal_end(b, from, i),
        i <= octal_end(b, from, i) <= b.len(),
    decreases b.len() - i,
{
    if i < b.len() {
        assert((a + b)[a.len() + i] == b[i]);
        if i - from < 3 && is_octal(b[i]) {
            lemma_octal_shift(a, b, from, i + 1);
        }
    }
}

/// An escape means the same behind another text.
pub proof fn lemma_escape_shift(a: Seq<char>, b: Seq<char>, i: int)
    requires
        0 <= i < b.len(),
    ensures
        escape_at(a + b, a.len() + i).0 == escape_at(b, i).0,
        escape_at(a + b, a.len() + i).1 == a.len() + escape_at(b, i).1,
        i < escape_at(b, i).1 <= b.len(),
{
    let n = a.len() as int;
    if i + 1 < b.len() {
        assert((a + b)[n + i + 1] == b[i + 1]);
        lemma_octal_shift(a, b, i + 2, i + 2);
        let j = octal_end(b, i + 2, i + 2);
        assert((a + b).subrange(n + i + 2, n + j) =~= b.subrange(i + 2, j));
    }
}

/// The letters n, t and r behind a backslash mean the newline, the tab and the carriage
/// return, and a backslash means itself; before any other character it stays, but for a zero.
pub proof fn law_escapes(c: char, rest: Seq<char>)
    ensures
        escape_at(seq!['\\', 'n'] + rest, 0) == (Escape::One('\n'), 2int),
        escape_at(seq!['\\', 't'] + rest, 0) == (Escape::One('\t'), 2int),
        escape_at(seq!['\\', 'r'] + rest, 0) == (Escape::One('\r'), 2int),
        escape_at(seq!['\\', '\\'] + rest, 0) == (Escape::One('\\'), 2int),
        escape_at(seq!['\\'], 0) == (Escape::One('\\'), 1int),
        c != 'n' && c != 't' && c != 'r' && c != '\\' && c != '0' ==> escape_at(
            seq!['\\', c] + rest,
            0,
        ) == (Escape::Kept(c), 2int),
{
    assert((seq!['\\', 'n'] + rest)[1] == 'n');
    assert((seq!['\\', 't'] + rest)[1] == 't');
    assert((seq!['\\', 'r'] + rest)[1] == 'r');
    assert((seq!['\\', '\\'] + rest)[1] == '\\');
    assert((seq!['\\', c] + rest)[1] == c);
}

/// Up to three octal digits behind a backslash and a zero give a value; those behind them do
/// not belong to it.
pub proof fn law_octal_escapes(a: char, b: char, c: char, rest: Seq<char>)
    requires
        is_octal(a) && is_octal(b) && is_octal(c),
    ensures
        escape_at(seq!['\\', '0', a, b, c] + rest, 0) == (
            Escape::Code((64 * (a as int - 48) + 8 * (b as int - 48) + (c as int - 48)) as u32),
            5int,
        ),
        rest.len() == 0 || !is_octal(rest[0]) ==> escape_at(seq!['\\', '0', a, b] + rest, 0) == (
            Escape::Code((8 * (a as int - 48) + (b as int - 48)) as u32),
            4int,
        ),
        rest.len() == 0 || !is_octal(rest[0]) ==> escape_at(seq!['\\', '0', a] + rest, 0) == (
            Escape::Code((a as int - 48) as u32),
            3int,
        ),
        rest.len() == 0 || !is_octal(rest[0]) ==> escape_at(seq!['\\', '0'] + rest, 0) == (
            Escape::Code(0),
            2int,
        ),
{
    reveal_with_fuel(octal_end, 4);
    reveal_with_fuel(octal_value, 4);
    let three = seq!['\\', '0', a, b, c] + rest;
    assert(three[1] == '0' && three[2] == a && three[3] == b && three[4] == c);
    assert(octal_end(three, 2, 5) == 5);
    assert(octal_end(three, 2, 4) == 5);
    assert(octal_end(three, 2, 2) == 5);
    assert(three.subrange(2, 5) =~= seq![a, b, c]);
    assert(seq![a, b, c].drop_last() =~= seq![a, b]);
    assert(seq![a, b].drop_last() =~= seq![a]);
    assert(seq![a].drop_last() =~= Seq::<char>::empty());
    assert(octal_value(Seq::<char>::empty()) == 0);
    assert(octal_value(seq![a]) == a as int - 48);
    assert(octal_value(seq![a, b]) == 8 * (a as int - 48) + (b as int - 48));
    assert(octal_value(seq![a, b, c]) == 64 * (a as int - 48) + 8 * (b as int - 48) + (c as int
        - 48));
    let two = seq!['\\', '0', a, b] + rest;
    assert(two[1] == '0' && two[2] == a && two[3] == b);
    let one = seq!['\\', '0', a] + rest;
    assert(one[1] == '0' && one[2] == a);
    let zero = seq!['\\', '0'] + rest;
    assert(zero[1] == '0');
    if rest.len() > 0 {
        assert(two[4] == rest[0] && one[3] == rest[0] && zero[2] == rest[0]);
    }
    assert(two.subrange(2, 4) =~= seq![a, b]);
    assert(one.subrange(2, 3) =~= seq![a]);
    assert(zero.subrange(2, 2) =~= Seq::<char>::empty());
    assert(rest.len() == 0 || !is_octal(rest[0]) ==> octal_end(two, 2, 4) == 4);
    assert(rest.len() == 0 || !is_octal(rest[0]) ==> octal_end(one, 2, 3) == 3);
    assert(rest.len() == 0 || !is_octal(rest[0]) ==> octal_end(zero, 2, 2) == 2);
}

} // verus!
