//! Numbers written as text and read back from it.
use vstd::prelude::*;
use crate::text::{is_digit, repeated, to_text, char_is_digit};

verus! {

/// The character that stands for a digit.
pub open spec fn digit_char(d: int, upper: bool) -> char {
    if d < 10 {
        ('0' as u32 + d) as char
    } else if upper {
        ('A' as u32 + d - 10) as char
    } else {
        ('a' as u32 + d - 10) as char
    }
}

/// A number in base `base`, without leading zeros.
pub open spec fn digits(n: nat, base: nat, upper: bool) -> Seq<char>
    decreases n,
{
    if base < 2 || n < base {
        seq![digit_char(n as int, upper)]
    } else {
        proof {
            assert(n / base < n) by (nonlinear_arith)
                requires
                    base >= 2,
                    n >= base,
            ;
        }
        digits(n / base, base, upper).push(digit_char((n % base) as int, upper))
    }
}

/// A number in decimal.
pub open spec fn decimal(n: nat) -> Seq<char> {
    digits(n, 10, false)
}

/// A signed number in decimal.
pub open spec fn signed_decimal(n: int) -> Seq<char> {
    if n < 0 {
        seq!['-'] + decimal((-n) as nat)
    } else {
        decimal(n as nat)
    }
}

/// `s` behind as many zeros as bring it to `width` characters.
pub open spec fn zero_pad(s: Seq<char>, width: int) -> Seq<char> {
    repeated('0', width - s.len()) + s
}

/// The value of a text of decimal digits.
pub open spec fn digits_value(s: Seq<char>) -> nat
    decreases s.len(),
{
    if s.len() == 0 {
        0
    } else {
        digits_value(s.drop_last()) * 10 + (s.last() as u32 - '0' as u32) as nat
    }
}

pub open spec fn all_digits(s: Seq<char>) -> bool {
    forall|i: int| 0 <= i < s.len() ==> is_digit(#[trigger] s[i])
}

/// What an unsigned number of at most `max` reads as: an optional plus sign and then
/// one digit or more, nothing else.
pub open spec fn read_unsigned(s: Seq<char>, max: nat) -> Option<nat> {
    let t = if s.len() > 0 && s[0] == '+' {
        s.drop_first()
    } else {
        s
    };
    if t.len() > 0 && all_digits(t) && digits_value(t) <= max {
        Some(digits_value(t))
    } else {
        None
    }
}

/// What a signed 64-bit number reads as: an optional sign and then one digit or more.
pub open spec fn read_i64(s: Seq<char>) -> Option<int> {
    if s.len() > 0 && s[0] == '-' {
        let t = s.drop_first();
        if t.len() > 0 && all_digits(t) && digits_value(t) <= 0x8000_0000_0000_0000 {
            Some(-(digits_value(t) as int))
        } else {
            None
        }
    } else {
        match read_unsigned(s, 0x7fff_ffff_ffff_ffff) {
            Some(n) => Some(n as int),
            None => None,
        }
    }
}

/// What a signed 32-bit number reads as.
pub open spec fn read_i32(s: Seq<char>) -> Option<int> {
    match read_i64(s) {
        Some(n) => if -0x8000_0000 <= n <= 0x7fff_ffff {
            Some(n)
        } else {
            None
        },
        None => None,
    }
}

/// What a `usize` reads as.
pub open spec fn read_usize(s: Seq<char>) -> Option<nat> {
    read_unsigned(s, usize::MAX as nat)
}

/// The value that a text of decimal digits spells, where it is not above `max`.
fn read_digits(s: &[char], from: usize, max: u64) -> (r: Option<u64>)
    requires
        from <= s@.len(),
    ensures
        ({
            let t = s@.skip(from as int);
            match r {
                Some(n) => t.len() > 0 && all_digits(t) && digits_value(t) == n && n <= max,
                None => t.len() == 0 || !all_digits(t) || digits_value(t) > max,
            }
        }),
{
    let ghost t = s@.skip(from as int);
    if from == s.len() {
        return None;
    }
    let mut i: usize = from;
    let mut n: u64 = 0;
    let mut over: bool = false;
    while i < s.len()
        invariant
            from <= i <= s@.len(),
            t == s@.skip(from as int),
            forall|k: int| 0 <= k < i - from ==> is_digit(#[trigger] t[k]),
            !over ==> n == digits_value(t.take(i - from)) && n <= max,
            over ==> digits_value(t.take(i - from)) > max,
        decreases s@.len() - i,
    {
        let c = s[i];
        proof {
            assert(t[i - from] == c);
            assert(t.take(i + 1 - from).drop_last() =~= t.take(i - from));
            assert(t.take(i + 1 - from).last() == c);
        }
        if !char_is_digit(c) {
            return None;
        }
        let d: u64 = (c as u32 - '0' as u32) as u64;
        if !over {
            if n > (u64::MAX - d) / 10 {
                proof {
                    assert(n * 10 + d > u64::MAX);
                }
                over = true;
            } else {
                n = n * 10 + d;
                if n > max {
                    over = true;
                }
            }
        }
        i += 1;
    }
    proof {
        assert(t.take(t.len() as int) =~= t);
    }
    if over {
        None
    } else {
        Some(n)
    }
}

/// Reads an unsigned number.
pub fn parse_unsigned(s: &[char], max: u64) -> (r: Option<u64>)
    ensures
        match r {
            Some(n) => read_unsigned(s@, max as nat) == Some(n as nat),
            None => read_unsigned(s@, max as nat) is None,
        },
{
    let from: usize = if s.len() > 0 && s[0] == '+' {
        1
    } else {
        0
    };
    proof {
        assert(s@.skip(0) =~= s@);
        if s@.len() > 0 {
            assert(s@.skip(1) =~= s@.drop_first());
        }
    }
    read_digits(s, from, max)
}

/// Reads a `usize`.
pub fn parse_usize(s: &[char]) -> (r: Option<usize>)
    ensures
        match r {
            Some(n) => read_usize(s@) == Some(n as nat),
            None => read_usize(s@) is None,
        },
{
    match parse_unsigned(s, usize::MAX as u64) {
        Some(n) => Some(n as usize),
        None => None,
    }
}

/// Reads a signed 64-bit number.
pub fn parse_i64(s: &[char]) -> (r: Option<i64>)
    ensures
        match r {
            Some(n) => read_i64(s@) == Some(n as int),
            None => read_i64(s@) is None,
        },
{
    if s.len() > 0 && s[0] == '-' {
        proof {
            assert(s@.skip(1) =~= s@.drop_first());
        }
        match read_digits(s, 1, 0x8000_0000_0000_0000) {
            Some(n) => if n == 0x8000_0000_0000_0000 {
                Some(i64::MIN)
            } else {
                Some(-(n as i64))
            },
            None => None,
        }
    } else {
        match parse_unsigned(s, 0x7fff_ffff_ffff_ffff) {
            Some(n) => Some(n as i64),
            None => None,
        }
    }
}

/// Reads a signed 32-bit number.
pub fn parse_i32(s: &[char]) -> (r: Option<i32>)
    ensures
        match r {
            Some(n) => read_i32(s@) == Some(n as int),
            None => read_i32(s@) is None,
        },
{
    match parse_i64(s) {
        Some(n) => if n >= -0x8000_0000 && n <= 0x7fff_ffff {
            Some(n as i32)
        } else {
            None
        },
        None => None,
    }
}

fn digit_to_char(d: u32, upper: bool) -> (r: char)
    requires
        d < 16,
    ensures
        r == digit_char(d as int, upper),
{
    let n: u8 = if d < 10 {
        48 + d as u8
    } else if upper {
        55 + d as u8
    } else {
        87 + d as u8
    };
    n as char
}

/// Writes a number in a base, without leading zeros.
pub fn write_digits(n: u64, base: u64, upper: bool) -> (r: Vec<char>)
    requires
        2 <= base <= 16,
    ensures
        r@ == digits(n as nat, base as nat, upper),
    decreases n,
{
    if n < base {
        let mut out: Vec<char> = Vec::new();
        out.push(digit_to_char(n as u32, upper));
        proof {
            assert(out@ =~= seq![digit_char(n as int, upper)]);
        }
        out
    } else {
        proof {
            assert(n / base < n) by (nonlinear_arith)
                requires
                    base >= 2,
                    n > 0,
            ;
            assert(n % base < base) by (nonlinear_arith)
                requires
                    base >= 2,
            ;
        }
        let mut out = write_digits(n / base, base, upper);
        out.push(digit_to_char((n % base) as u32, upper));
        out
    }
}

/// Writes a number in decimal.
pub fn write_decimal(n: u64) -> (r: Vec<char>)
    ensures
        r@ == decimal(n as nat),
{
    write_digits(n, 10, false)
}

/// Writes a signed number in decimal.
pub fn write_signed(n: i64) -> (r: Vec<char>)
    ensures
        r@ == signed_decimal(n as int),
{
    if n < 0 {
        let m: u64 = if n == i64::MIN {
            0x8000_0000_0000_0000
        } else {
            (-n) as u64
        };
        let mut out: Vec<char> = Vec::new();
        out.push('-');
        let mut ds = write_decimal(m);
        out.append(&mut ds);
        proof {
            assert(out@ =~= seq!['-'] + decimal(m as nat));
        }
        out
    } else {
        write_decimal(n as u64)
    }
}

/// Puts zeros before a text.
pub fn zero_padded(s: &[char], width: usize) -> (r: String)
    ensures
        r@ == zero_pad(s@, width as int),
{
    let n: usize = if s.len() < width {
        width - s.len()
    } else {
        0
    };
    let mut out: Vec<char> = Vec::new();
    let mut i: usize = 0;
    while i < n
        invariant
            i <= n,
            out@ =~= repeated('0', i as int),
        decreases n - i,
    {
        out.push('0');
        i += 1;
    }
    crate::text::append_all(&mut out, s);
    proof {
        assert(repeated('0', width - s@.len()) =~= repeated('0', n as int));
    }
    to_text(&out)
}

/// A decimal number reads as the number that was written.
pub proof fn lemma_decimal_reads_back(n: nat)
    ensures
        all_digits(decimal(n)),
        decimal(n).len() > 0,
        digits_value(decimal(n)) == n,
    decreases n,
{
    let d = decimal(n);
    if n < 10 {
        assert(d =~= seq![digit_char(n as int, false)]);
        assert(d.drop_last() =~= Seq::<char>::empty());
        assert(digits_value(d.drop_last()) == 0);
    } else {
        lemma_decimal_reads_back(n / 10);
        let p = decimal(n / 10);
        assert(d =~= p.push(digit_char((n % 10) as int, false)));
        assert(d.drop_last() =~= p);
        assert forall|i: int| 0 <= i < d.len() implies is_digit(#[trigger] d[i]) by {
            if i < p.len() {
                assert(d[i] == p[i]);
            }
        }
    }
}

/// Writing a 64-bit number in decimal and reading it gives the number back.
pub proof fn lemma_i64_reads_back(n: i64)
    ensures
        read_i64(signed_decimal(n as int)) == Some(n as int),
{
    if n < 0 {
        let m = (-n) as nat;
        lemma_decimal_reads_back(m);
        assert(signed_decimal(n as int).drop_first() =~= decimal(m));
    } else {
        lemma_decimal_reads_back(n as nat);
        let d = decimal(n as nat);
        assert(is_digit(d[0]));
    }
}

/// A number below ten is written as one digit.
pub proof fn law_one_digit(n: nat)
    requires
        n < 10,
    ensures
        decimal(n) == seq![(48 + n) as char],
{
    assert(decimal(n) =~= seq![(48 + n) as char]);
}

/// A longer number is written as that of its tens and the digit of its ones behind it.
pub proof fn law_more_digits(n: nat, d: nat)
    requires
        n > 0,
        d < 10,
    ensures
        decimal(10 * n + d) == decimal(n).push((48 + d) as char),
{
    let m = 10 * n + d;
    assert(m / 10 == n && m % 10 == d);
    assert(digits(m, 10, false) == digits(n, 10, false).push(digit_char(d as int, false)));
}

/// Numbers that are written alike are equal.
pub proof fn law_decimals_differ(a: nat, b: nat)
    requires
        decimal(a) == decimal(b),
    ensures
        a == b,
{
    lemma_decimal_reads_back(a);
    lemma_decimal_reads_back(b);
}

/// What is written in decimal is read back: a `usize` by `read_usize`, also behind a
/// plus sign, and nothing is read of a text with anything but digits in it.
pub proof fn law_decimal_is_read(n: nat, c: char, s: Seq<char>)
    requires
        !is_digit(c),
    ensures
        read_usize(decimal(n)) == if n <= usize::MAX {
            Some(n)
        } else {
            None
        },
        read_usize(seq!['+'] + decimal(n)) == read_usize(decimal(n)),
        read_usize(Seq::empty()) is None,
        read_usize(decimal(n) + seq![c] + s) is None,
        read_i64(seq!['-'] + decimal(n)) == if n <= 0x8000_0000_0000_0000 {
            Some(-(n as int))
        } else {
            None
        },
        read_i64(decimal(n) + seq![c] + s) is None,
{
    lemma_decimal_reads_back(n);
    let d = decimal(n);
    assert(is_digit(d[0]));
    assert((seq!['+'] + d).drop_first() =~= d);
    assert((seq!['-'] + d).drop_first() =~= d);
    let t = d + seq![c] + s;
    assert(t[0] == d[0]);
    assert(t[d.len() as int] == c);
    assert(!all_digits(t));
}

/// The digits of a number in another base make up its value.
pub open spec fn value_in(s: Seq<char>, base: nat) -> nat
    decreases s.len(),
{
    if s.len() == 0 {
        0
    } else {
        let c = s.last();
        value_in(s.drop_last(), base) * base + if '0' <= c <= '9' {
            (c as u32 - 48) as nat
        } else if 'a' <= c <= 'z' {
            (c as u32 - 87) as nat
        } else {
            (c as u32 - 55) as nat
        }
    }
}

/// A number in a base up to sixteen has the value that its digits make up, and no zero
/// before it but that of zero itself. Its letters are lower case, or upper case where
/// they are asked for.
pub proof fn law_digits_have_the_value(n: nat, base: nat, upper: bool)
    requires
        2 <= base <= 16,
    ensures
        value_in(digits(n, base, upper), base) == n,
        digits(n, base, upper).len() > 0,
        n > 0 ==> digits(n, base, upper)[0] != '0',
        forall|i: int|
            0 <= i < digits(n, base, upper).len() ==> ({
                let c = #[trigger] digits(n, base, upper)[i];
                ('0' <= c <= '9') || (!upper && 'a' <= c <= 'f') || (upper && 'A' <= c <= 'F')
            }),
    decreases n,
{
    let s = digits(n, base, upper);
    if n < base {
        assert(s =~= seq![digit_char(n as int, upper)]);
        assert(s.drop_last() =~= Seq::<char>::empty());
        reveal_with_fuel(value_in, 2);
    } else {
        let q = n / base;
        let r = n % base;
        assert(q < n && q > 0 && n == q * base + r && r < base) by (nonlinear_arith)
            requires
                base >= 2,
                n >= base,
                q == n / base,
                r == n % base,
        ;
        law_digits_have_the_value(q, base, upper);
        let front = digits(q, base, upper);
        assert(s == front.push(digit_char(r as int, upper)));
        assert(s.drop_last() =~= front);
        assert(s[0] == front[0]);
        assert forall|i: int| 0 <= i < s.len() implies ({
            let c = #[trigger] s[i];
            ('0' <= c <= '9') || (!upper && 'a' <= c <= 'f') || (upper && 'A' <= c <= 'F')
        }) by {
            if i < front.len() {
                assert(s[i] == front[i]);
            }
        }
    }
}

/// Zeros before a text bring it to a width and leave it as it is behind them.
pub proof fn law_zeros_before(s: Seq<char>, width: int)
    ensures
        zero_pad(s, width).len() == if width > s.len() {
            width
        } else {
            s.len() as int
        },
        zero_pad(s, width).skip(zero_pad(s, width).len() - s.len()) == s,
        forall|k: int|
            0 <= k < zero_pad(s, width).len() - s.len() ==> #[trigger] zero_pad(s, width)[k] == '0',
{
    assert(zero_pad(s, width).skip(zero_pad(s, width).len() - s.len()) =~= s);
}

/// A number of thirty-two bits is one of sixty-four that is small enough.
pub proof fn law_small_numbers_are_read(n: int)
    ensures
        -0x8000_0000 <= n <= 0x7fff_ffff ==> read_i32(signed_decimal(n)) == Some(n),
        0x7fff_ffff < n <= i64::MAX ==> read_i32(signed_decimal(n)) is None,
        i64::MIN <= n < -0x8000_0000 ==> read_i32(signed_decimal(n)) is None,
{
    if i64::MIN <= n <= i64::MAX {
        lemma_i64_reads_back(n as i64);
    }
}

} // verus!
