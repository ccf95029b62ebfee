//! Bytes as text in base 64.
use base64::Engine;
use vstd::prelude::*;

verus! {

/// The character that stands for six bits.
pub open spec fn sextet(n: int) -> char {
    if n < 26 {
        ('A' as int + n) as char
    } else if n < 52 {
        ('a' as int + n - 26) as char
    } else if n < 62 {
        ('0' as int + n - 52) as char
    } else if n == 62 {
        '+'
    } else {
        '/'
    }
}

/// The text of the bytes from `i` on: four characters for three bytes, and `=` for
/// each character that the last group lacks.
pub open spec fn encoded_from(b: Seq<u8>, i: int) -> Seq<char>
    decreases b.len() - i,
{
    if i < 0 || i >= b.len() {
        Seq::empty()
    } else {
        let one = b[i] as int;
        let two = if i + 1 < b.len() {
            b[i + 1] as int
        } else {
            0
        };
        let three = if i + 2 < b.len() {
            b[i + 2] as int
        } else {
            0
        };
        seq![
            sextet(one / 4),
            sextet(one % 4 * 16 + two / 16),
            if i + 1 < b.len() {
                sextet(two % 16 * 4 + three / 64)
            } else {
                '='
            },
            if i + 2 < b.len() {
                sextet(three % 64)
            } else {
                '='
            },
        ] + (if i + 3 < b.len() {
            encoded_from(b, i + 3)
        } else {
            Seq::empty()
        })
    }
}

/// `base64::Engine::encode` of the engine `general_purpose::STANDARD`: the standard
/// alphabet, with padding.
#[verifier::external_body]
pub(crate) fn encode(bytes: &[u8]) -> (r: String)
    ensures
        r@ == encoded_from(bytes@, 0),
{
    base64::engine::general_purpose::STANDARD.encode(bytes)
}

/// What a character of an encoded text stands for.
pub open spec fn sextet_value(c: char) -> int {
    if 'A' <= c <= 'Z' {
        c as int - 'A' as int
    } else if 'a' <= c <= 'z' {
        c as int - 'a' as int + 26
    } else if '0' <= c <= '9' {
        c as int - '0' as int + 52
    } else if c == '+' {
        62
    } else if c == '/' {
        63
    } else {
        -1
    }
}

/// The characters stand for the numbers below sixty-four, each for its own.
pub proof fn law_sextets(n: int)
    requires
        0 <= n < 64,
    ensures
        sextet_value(sextet(n)) == n,
        sextet(n) != '=',
{
}

proof fn lemma_encoded_skip(a: Seq<u8>, b: Seq<u8>, i: int)
    requires
        0 <= i <= b.len(),
    ensures
        encoded_from(a + b, a.len() + i) == encoded_from(b, i),
    decreases b.len() - i,
{
    let n = a.len() as int;
    if i < b.len() {
        assert((a + b)[n + i] == b[i]);
        if i + 1 < b.len() {
            assert((a + b)[n + i + 1] == b[i + 1]);
        }
        if i + 2 < b.len() {
            assert((a + b)[n + i + 2] == b[i + 2]);
        }
        if i + 3 < b.len() {
            lemma_encoded_skip(a, b, i + 3);
        }
    }
}

/// Three bytes are four characters that stand for the same number, and what follows is
/// encoded on its own.
pub proof fn law_three_bytes(a: u8, b: u8, c: u8, rest: Seq<u8>)
    ensures
        ({
            let e = encoded_from(seq![a, b, c] + rest, 0);
            &&& e.len() >= 4
            &&& ((sextet_value(e[0]) * 64 + sextet_value(e[1])) * 64 + sextet_value(e[2])) * 64
                + sextet_value(e[3]) == (a * 256 + b) * 256 + c
            &&& 0 <= sextet_value(e[0]) && 0 <= sextet_value(e[1]) && 0 <= sextet_value(e[2]) && 0
                <= sextet_value(e[3])
            &&& e.skip(4) == encoded_from(rest, 0)
        }),
        encoded_from(Seq::empty(), 0).len() == 0,
{
    let s = seq![a, b, c] + rest;
    assert(s[0] == a && s[1] == b && s[2] == c);
    let one = a as int;
    let two = b as int;
    let three = c as int;
    law_sextets(one / 4);
    law_sextets(one % 4 * 16 + two / 16);
    law_sextets(two % 16 * 4 + three / 64);
    law_sextets(three % 64);
    lemma_encoded_skip(seq![a, b, c], rest, 0);
    let e = encoded_from(s, 0);
    assert(e.skip(4) =~= encoded_from(rest, 0)) by {
        if rest.len() == 0 {
            assert(encoded_from(rest, 0).len() == 0);
        }
    }
}

/// Two bytes at the end are three characters and an equals sign, one byte two characters and
/// two equals signs.
pub proof fn law_bytes_at_the_end(a: u8, b: u8)
    ensures
        ({
            let e = encoded_from(seq![a, b], 0);
            &&& e.len() == 4 && e[3] == '='
            &&& (sextet_value(e[0]) * 64 + sextet_value(e[1])) * 64 + sextet_value(e[2]) == (a * 256
                + b) * 4
            &&& 0 <= sextet_value(e[0]) && 0 <= sextet_value(e[1]) && 0 <= sextet_value(e[2])
        }),
        ({
            let e = encoded_from(seq![a], 0);
            &&& e.len() == 4 && e[2] == '=' && e[3] == '='
            &&& sextet_value(e[0]) * 64 + sextet_value(e[1]) == a * 16
            &&& 0 <= sextet_value(e[0]) && 0 <= sextet_value(e[1])
        }),
{
    let one = a as int;
    let two = b as int;
    law_sextets(one / 4);
    law_sextets(one % 4 * 16 + two / 16);
    law_sextets(two % 16 * 4);
    law_sextets(one % 4 * 16);
    let s = seq![a, b];
    assert(s[0] == a && s[1] == b);
    let t = seq![a];
    assert(t[0] == a);
}

} // verus!
