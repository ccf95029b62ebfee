//! printf - format and print data
use vstd::prelude::*;
use vstd::string::StringExecFns;
use crate::commands::Said;
use crate::escape::{escape_at, law_escapes, lemma_escape_shift, read_escape, Escape};
use crate::num::{digits, parse_i64, read_i64, signed_decimal, write_digits, write_signed};
use crate::text::{push_chars, strs, to_chars};

verus! {

/// The number that a value means; zero where it means none.
pub open spec fn number(s: Seq<char>) -> int {
    match read_i64(s) {
        Some(n) => n,
        None => 0,
    }
}

/// A number as its 64 bits without a sign.
pub open spec fn bits(n: int) -> nat {
    if n < 0 {
        (n + 0x1_0000_0000_0000_0000) as nat
    } else {
        n as nat
    }
}

/// A number in base 8, 10 or 16 as `%o`, `%d`, `%x` and `%X` write it.
pub open spec fn written(n: int, c: char) -> Seq<char> {
    if c == 'd' {
        signed_decimal(n)
    } else if c == 'o' {
        digits(bits(n), 8, false)
    } else {
        digits(bits(n), 16, c == 'X')
    }
}

pub open spec fn is_number_letter(c: char) -> bool {
    c == 'd' || c == 'x' || c == 'X' || c == 'o'
}

/// What the directive at position `i` stands for when `k` values have been used, and
/// how many have been used then.
pub open spec fn directive_at(f: Seq<char>, i: int, values: Seq<Seq<char>>, k: int) -> (
    Seq<char>,
    int,
) {
    if i + 1 >= f.len() {
        (seq!['%'], k)
    } else {
        let c = f[i + 1];
        if c == '%' {
            (seq!['%'], k)
        } else if c == 's' {
            if k < values.len() {
                (values[k], k + 1)
            } else {
                (Seq::empty(), k)
            }
        } else if is_number_letter(c) {
            if k < values.len() {
                (written(number(values[k]), c), k + 1)
            } else {
                (seq!['0'], k)
            }
        } else if c == 'c' {
            if k < values.len() {
                (
                    if values[k].len() > 0 {
                        seq![values[k][0]]
                    } else {
                        Seq::empty()
                    },
                    k + 1,
                )
            } else {
                (Seq::empty(), k)
            }
        } else {
            (seq!['%', c], k)
        }
    }
}

/// Where the text behind a directive starts.
pub open spec fn directive_end(f: Seq<char>, i: int) -> int {
    if i + 1 >= f.len() {
        i + 1
    } else {
        i + 2
    }
}

/// The text that an escape stands for. A code is the character of that value, and
/// nothing where it is above 255.
pub open spec fn escape_text(e: Escape) -> Seq<char> {
    match e {
        Escape::One(c) => seq![c],
        Escape::Kept(c) => seq!['\\', c],
        Escape::Code(v) => if v < 256 {
            seq![v as char]
        } else {
            Seq::empty()
        },
    }
}

fn push_escape(out: &mut String, e: Escape)
    ensures
        final(out)@ == old(out)@ + escape_text(e),
{
    let ghost start = out@;
    match e {
        Escape::One(c) => out.push(c),
        Escape::Kept(c) => {
            out.push('\\');
            out.push(c);
        },
        Escape::Code(v) => {
            if v < 256 {
                let c = (v as u8) as char;
                out.push(c);
            }
        },
    }
    proof {
        assert(out@ =~= start + escape_text(e));
    }
}

/// A format from position `i` on with its escapes and directives replaced, when `k`
/// values have been used.
pub open spec fn formatted_from(f: Seq<char>, i: int, values: Seq<Seq<char>>, k: int) -> Seq<char>
    decreases f.len() - i,
{
    if i < 0 || i >= f.len() {
        Seq::empty()
    } else if f[i] == '\\' {
        let (e, next) = escape_at(f, i);
        if i < next <= f.len() {
            escape_text(e) + formatted_from(f, next, values, k)
        } else {
            escape_text(e)
        }
    } else if f[i] == '%' {
        let (text, used) = directive_at(f, i, values, k);
        text + formatted_from(f, directive_end(f, i), values, used)
    } else {
        seq![f[i]] + formatted_from(f, i + 1, values, k)
    }
}

fn write_number(out: &mut String, value: &str, c: char)
    requires
        is_number_letter(c),
    ensures
        final(out)@ == old(out)@ + written(number(value@), c),
{
    let cs = to_chars(value);
    let n: i64 = match parse_i64(&cs) {
        Some(n) => n,
        None => 0,
    };
    if c == 'd' {
        let ds = write_signed(n);
        push_chars(out, &ds);
    } else {
        let b = n as u64;
        proof {
            assert(n >= 0 ==> b == n) by (bit_vector)
                requires
                    b == n as u64,
            ;
            assert(n < 0 ==> b == n + 0x1_0000_0000_0000_0000) by (bit_vector)
                requires
                    b == n as u64,
            ;
        }
        let base = if c == 'o' {
            8
        } else {
            16
        };
        let ds = write_digits(b, base, c == 'X');
        push_chars(out, &ds);
    }
}

/// Formats values: escapes are replaced, and `%s`, `%d`, `%x`, `%X`, `%o` and `%c`
/// use one value each. `start` is the place of the first value.
pub fn format_values(format: &str, values: &Vec<String>, start: usize) -> (r: String)
    requires
        start <= values@.len(),
    ensures
        r@ == formatted_from(format@, 0, strs(values@).skip(start as int), 0),
{
    let f = to_chars(format);
    let ghost vs = strs(values@).skip(start as int);
    let ghost whole = formatted_from(f@, 0, vs, 0);
    let mut out = String::new();
    let mut i: usize = 0;
    let mut k: usize = start;
    proof {
        assert(out@ + whole =~= whole);
    }
    while i < f.len()
        invariant
            vs == strs(values@).skip(start as int),
            f.len() == f@.len(),
            i <= f@.len(),
            start <= k <= values@.len(),
            out@ + formatted_from(f@, i as int, vs, k - start) == whole,
        decreases f@.len() - i,
    {
        let ghost before = out@;
        let ghost at = i as int;
        let ghost used = k - start;
        if f[i] == '\\' {
            let (e, next) = read_escape(&f, i);
            push_escape(&mut out, e);
            i = next;
            proof {
                let text = escape_text(escape_at(f@, at).0);
                let rest = formatted_from(f@, i as int, vs, used);
                assert(before + text + rest =~= before + (text + rest));
            }
        } else if f[i] == '%' {
            if f.len() - i < 2 {
                out.push('%');
                i += 1;
            } else {
                let c = f[i + 1];
                proof {
                    if k < values@.len() {
                        assert(vs[used] == values@[k as int]@);
                    }
                }
                if c == '%' {
                    out.push('%');
                } else if c == 's' {
                    if k < values.len() {
                        out.append(values[k].as_str());
                        k += 1;
                    }
                } else if c == 'd' || c == 'x' || c == 'X' || c == 'o' {
                    if k < values.len() {
                        write_number(&mut out, values[k].as_str(), c);
                        k += 1;
                    } else {
                        out.push('0');
                    }
                } else if c == 'c' {
                    if k < values.len() {
                        let v = to_chars(values[k].as_str());
                        if v.len() > 0 {
                            out.push(v[0]);
                        }
                        k += 1;
                    }
                } else {
                    out.push('%');
                    out.push(c);
                }
                i += 2;
            }
            proof {
                let text = directive_at(f@, at, vs, used).0;
                assert(k - start == directive_at(f@, at, vs, used).1);
                assert(out@ =~= before + text);
                let rest = formatted_from(f@, i as int, vs, k - start);
                assert(before + text + rest =~= before + (text + rest));
            }
        } else {
            out.push(f[i]);
            i += 1;
            proof {
                let rest = formatted_from(f@, i as int, vs, used);
                assert(out@ + rest =~= before + (seq![f@[at]] + rest));
            }
        }
    }
    proof {
        assert(out@ =~= whole);
    }
    out
}

/// Formats values.
pub fn format_printf(format: &str, values: &Vec<String>) -> (r: String)
    ensures
        r@ == formatted_from(format@, 0, strs(values@), 0),
{
    proof {
        assert(strs(values@).skip(0) =~= strs(values@));
    }
    format_values(format, values, 0)
}

/// Runs printf.
pub fn run(argv: &Vec<String>) -> (r: Said)
    ensures
        if argv@.len() < 2 {
            r.says(Seq::empty(), "printf: missing format"@ + seq!['\n'], 1)
        } else {
            r.says(
                formatted_from(argv@[1]@, 0, strs(argv@).skip(2), 0),
                Seq::empty(),
                0,
            )
        },
{
    if argv.len() < 2 {
        return Said::complaint("printf: missing format", 1);
    }
    let out = format_values(argv[1].as_str(), argv, 2);
    Said { out, err: String::new(), code: 0 }
}

/// `%d` writes every number that fits in 64 bits as it would be read back.
pub proof fn law_decimal_survives(n: i64)
    ensures
        number(written(n as int, 'd')) == n,
{
    crate::num::lemma_i64_reads_back(n);
}

/// A format without a percent sign and a backslash is printed as it is.
pub proof fn law_plain_format_stays(f: Seq<char>, values: Seq<Seq<char>>, i: int, k: int)
    requires
        0 <= i <= f.len(),
        forall|j: int| 0 <= j < f.len() ==> (#[trigger] f[j]) != '%' && f[j] != '\\',
    ensures
        formatted_from(f, i, values, k) == f.skip(i),
    decreases f.len() - i,
{
    if i < f.len() {
        law_plain_format_stays(f, values, i + 1, k);
        assert(f.skip(i) =~= seq![f[i]] + f.skip(i + 1));
    } else {
        assert(f.skip(i) =~= Seq::<char>::empty());
    }
}

proof fn lemma_formatted_skip(
    a: Seq<char>,
    b: Seq<char>,
    i: int,
    values: Seq<Seq<char>>,
    k: int,
)
    requires
        0 <= i <= b.len(),
    ensures
        formatted_from(a + b, a.len() + i, values, k) == formatted_from(b, i, values, k),
    decreases b.len() - i,
{
    if i < b.len() {
        let n = a.len() as int;
        assert((a + b)[n + i] == b[i]);
        lemma_escape_shift(a, b, i);
        lemma_formatted_skip(a, b, escape_at(b, i).1, values, k);
        lemma_formatted_skip(a, b, i + 1, values, k);
        if i + 1 < b.len() {
            assert((a + b)[n + i + 1] == b[i + 1]);
            lemma_formatted_skip(a, b, i + 2, values, directive_at(b, i, values, k).1);
        } else {
            lemma_formatted_skip(a, b, i + 1, values, directive_at(b, i, values, k).1);
        }
    }
}

proof fn lemma_directive(c: char, rest: Seq<char>, values: Seq<Seq<char>>, k: int)
    ensures
        formatted_from(seq!['%', c] + rest, 0, values, k) == directive_at(
            seq!['%', c] + rest,
            0,
            values,
            k,
        ).0 + formatted_from(rest, 0, values, directive_at(seq!['%', c] + rest, 0, values, k).1),
        (seq!['%', c] + rest)[1] == c,
{
    let s = seq!['%', c] + rest;
    assert(s[0] == '%' && s[1] == c);
    lemma_formatted_skip(
        seq!['%', c],
        rest,
        0,
        values,
        directive_at(s, 0, values, k).1,
    );
}

/// Each directive takes the next value and writes it as its letter says.
pub proof fn law_directives_take_values(
    rest: Seq<char>,
    values: Seq<Seq<char>>,
    k: int,
    n: i64,
)
    requires
        0 <= k < values.len(),
    ensures
        formatted_from(seq!['%', 's'] + rest, 0, values, k) == values[k] + formatted_from(
            rest,
            0,
            values,
            k + 1,
        ),
        values[k].len() > 0 ==> formatted_from(seq!['%', 'c'] + rest, 0, values, k) == seq![
            values[k][0],
        ] + formatted_from(rest, 0, values, k + 1),
        values[k] == signed_decimal(n as int) ==> formatted_from(
            seq!['%', 'd'] + rest,
            0,
            values,
            k,
        ) == signed_decimal(n as int) + formatted_from(rest, 0, values, k + 1),
        values[k] == signed_decimal(n as int) ==> formatted_from(
            seq!['%', 'x'] + rest,
            0,
            values,
            k,
        ) == digits(bits(n as int), 16, false) + formatted_from(rest, 0, values, k + 1),
        values[k] == signed_decimal(n as int) ==> formatted_from(
            seq!['%', 'X'] + rest,
            0,
            values,
            k,
        ) == digits(bits(n as int), 16, true) + formatted_from(rest, 0, values, k + 1),
        values[k] == signed_decimal(n as int) ==> formatted_from(
            seq!['%', 'o'] + rest,
            0,
            values,
            k,
        ) == digits(bits(n as int), 8, false) + formatted_from(rest, 0, values, k + 1),
        read_i64(values[k]) is None ==> formatted_from(seq!['%', 'd'] + rest, 0, values, k)
            == signed_decimal(0) + formatted_from(rest, 0, values, k + 1),
{
    crate::num::lemma_i64_reads_back(n);
    lemma_directive('s', rest, values, k);
    lemma_directive('c', rest, values, k);
    lemma_directive('d', rest, values, k);
    lemma_directive('x', rest, values, k);
    lemma_directive('X', rest, values, k);
    lemma_directive('o', rest, values, k);
}

/// Where no value is left, a text is empty and a number is zero.
pub proof fn law_missing_values(rest: Seq<char>, values: Seq<Seq<char>>, k: int)
    requires
        k >= values.len(),
    ensures
        formatted_from(seq!['%', 's'] + rest, 0, values, k) == formatted_from(rest, 0, values, k),
        formatted_from(seq!['%', 'c'] + rest, 0, values, k) == formatted_from(rest, 0, values, k),
        formatted_from(seq!['%', 'd'] + rest, 0, values, k) == seq!['0'] + formatted_from(
            rest,
            0,
            values,
            k,
        ),
        formatted_from(seq!['%', 'x'] + rest, 0, values, k) == seq!['0'] + formatted_from(
            rest,
            0,
            values,
            k,
        ),
        formatted_from(seq!['%', 'X'] + rest, 0, values, k) == seq!['0'] + formatted_from(
            rest,
            0,
            values,
            k,
        ),
        formatted_from(seq!['%', 'o'] + rest, 0, values, k) == seq!['0'] + formatted_from(
            rest,
            0,
            values,
            k,
        ),
{
    lemma_directive('s', rest, values, k);
    lemma_directive('c', rest, values, k);
    lemma_directive('d', rest, values, k);
    lemma_directive('x', rest, values, k);
    lemma_directive('X', rest, values, k);
    lemma_directive('o', rest, values, k);
    let none = Seq::<char>::empty();
    assert(none + formatted_from(rest, 0, values, k) =~= formatted_from(rest, 0, values, k));
}

/// What takes no value: a doubled percent sign, a letter that is no directive, an escape and
/// any other character.
pub proof fn law_the_rest_of_a_format(c: char, rest: Seq<char>, values: Seq<Seq<char>>, k: int)
    ensures
        formatted_from(Seq::empty(), 0, values, k).len() == 0,
        formatted_from(seq!['%', '%'] + rest, 0, values, k) == seq!['%'] + formatted_from(
            rest,
            0,
            values,
            k,
        ),
        formatted_from(seq!['%'], 0, values, k) == seq!['%'],
        c != '%' && c != 's' && c != 'c' && c != 'd' && c != 'x' && c != 'X' && c != 'o'
            ==> formatted_from(seq!['%', c] + rest, 0, values, k) == seq!['%', c] + formatted_from(
            rest,
            0,
            values,
            k,
        ),
        c != '%' && c != '\\' ==> formatted_from(seq![c] + rest, 0, values, k) == seq![c]
            + formatted_from(rest, 0, values, k),
        formatted_from(seq!['\\', 'n'] + rest, 0, values, k) == seq!['\n'] + formatted_from(
            rest,
            0,
            values,
            k,
        ),
        formatted_from(seq!['\\', 't'] + rest, 0, values, k) == seq!['\t'] + formatted_from(
            rest,
            0,
            values,
            k,
        ),
        formatted_from(seq!['\\', 'r'] + rest, 0, values, k) == seq!['\r'] + formatted_from(
            rest,
            0,
            values,
            k,
        ),
        formatted_from(seq!['\\', '\\'] + rest, 0, values, k) == seq!['\\'] + formatted_from(
            rest,
            0,
            values,
            k,
        ),
{
    law_escapes(c, rest);
    lemma_directive('%', rest, values, k);
    lemma_directive(c, rest, values, k);
    lemma_formatted_skip(seq![c], rest, 0, values, k);
    assert((seq![c] + rest)[0] == c);
    assert(formatted_from(seq!['%'], 1, values, k).len() == 0);
    assert(formatted_from(seq!['%'], 0, values, k) =~= seq!['%']);
    lemma_formatted_skip(seq!['\\', 'n'], rest, 0, values, k);
    lemma_formatted_skip(seq!['\\', 't'], rest, 0, values, k);
    lemma_formatted_skip(seq!['\\', 'r'], rest, 0, values, k);
    lemma_formatted_skip(seq!['\\', '\\'], rest, 0, values, k);
    assert((seq!['\\', 'n'] + rest)[0] == '\\');
    assert((seq!['\\', 't'] + rest)[0] == '\\');
    assert((seq!['\\', 'r'] + rest)[0] == '\\');
    assert((seq!['\\', '\\'] + rest)[0] == '\\');
}

/// The bits of a number that is not negative are the number, those of a negative one the
/// number that lies as far below two to the sixty-fourth.
pub proof fn law_bits_of_a_number(n: i64)
    ensures
        n >= 0 ==> bits(n as int) == n,
        n < 0 ==> bits(n as int) - n == 18446744073709551616,
{
}

} // verus!
