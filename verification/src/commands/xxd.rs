//! xxd - make a hex dump or do the reverse
use vstd::prelude::*;
use vstd::string::StringExecFns;
use crate::args::{
    arg_tokens, has_long, has_short, last_count, last_number, lex_args, toks, values, values_from, Tok,
};
use crate::commands::{refusal, refusal_line, Said, Start};
use crate::error::IoError;
use crate::io_handle::least;
use crate::list::{strings_of, Strings};
use crate::num::{decimal, digit_char, digits, write_decimal, write_digits, zero_pad, zero_padded};
use crate::text::{
    append_all, basename, char_is_alpha, char_is_digit, find_char, find_chars, find_from,
    find_sub_from, is_alnum, is_digit, lemma_find_from, lemma_find_sub, lines, pad_right,
    padded_right, part, push_chars, rows, split_chars, split_lines, starts_with, strs, to_chars, to_text, trim,
    trim_chars,
};
use crate::unicode::{lossy, read_lossy};

verus! {

pub const HELP: &'static str = "xxd - make a hex dump or do the reverse\n\nUsage: xxd [OPTIONS] [FILE]\n\nOptions:\n  -h, --help     Show this help message\n  -r             Reverse operation: convert hex dump to binary\n  -p             Plain hex dump without addresses or ASCII\n  -i             C include file style output\n  -u             Use uppercase hex letters\n  -c <cols>      Bytes per line (default 16)\n  -g <bytes>     Group size in bytes (default 2, 0 for no grouping)\n  -l <len>       Stop after <len> bytes\n  -s <offset>    Start at byte offset\n\nExamples:\n  echo hello | xxd           Hex dump of 'hello'\n  xxd -p file.bin            Plain hex output\n  xxd -i data.bin            C include format\n  xxd -r dump.txt            Convert hex dump back to binary\n  xxd -c 8 file.bin          8 bytes per line\n";

/// What xxd was asked for.
#[derive(Debug, Clone, Copy, PartialEq, Eq, Structural)]
pub struct Options {
    /// Bytes per line.
    pub cols: usize,
    /// Grouping size in bytes; no grouping where it is zero.
    pub group: usize,
    /// Use uppercase hex.
    pub uppercase: bool,
    /// Plain hex dump (no address or ASCII).
    pub plain: bool,
    /// C include style output.
    pub c_include: bool,
    /// Reverse operation (hex to binary).
    pub reverse: bool,
    /// Limit output length.
    pub length: Option<usize>,
    /// Seek offset.
    pub seek: usize,
}

// ---------------------------------------------------------------------------
// Dumping
// ---------------------------------------------------------------------------

/// The two hex digits of a byte.
pub open spec fn hex2(b: u8, upper: bool) -> Seq<char> {
    seq![digit_char((b / 16) as int, upper), digit_char((b % 16) as int, upper)]
}

/// The hex digits of the bytes from `i` on.
pub open spec fn plain_from(data: Seq<u8>, upper: bool, i: int) -> Seq<char>
    decreases data.len() - i,
{
    if i < 0 || i >= data.len() {
        Seq::empty()
    } else {
        hex2(data[i], upper) + plain_from(data, upper, i + 1)
    }
}

/// The bytes from `i` on as a C program writes them.
pub open spec fn c_from(data: Seq<u8>, upper: bool, i: int) -> Seq<char>
    decreases data.len() - i,
{
    if i < 0 || i >= data.len() {
        Seq::empty()
    } else {
        (if i > 0 {
            ", "@
        } else {
            Seq::empty()
        }) + "0x"@ + hex2(data[i], upper) + c_from(data, upper, i + 1)
    }
}

/// How a byte shows as a character.
pub open spec fn shown(b: u8) -> char {
    if 0x20 <= b <= 0x7e {
        b as char
    } else {
        '.'
    }
}

impl Options {
    /// Whether a blank follows the byte at place `i` of a line.
    pub open spec fn gap_after(self, i: int) -> bool {
        self.group > 0 && (i + 1) % (self.group as int) == 0 && i + 1 < self.cols
    }

    /// The hex digits of the bytes from `i` on, in groups.
    pub open spec fn grouped_from(self, data: Seq<u8>, i: int) -> Seq<char>
        decreases data.len() - i,
    {
        if i < 0 || i >= data.len() {
            Seq::empty()
        } else {
            hex2(data[i], self.uppercase) + (if self.gap_after(i) {
                seq![' ']
            } else {
                Seq::empty()
            }) + self.grouped_from(data, i + 1)
        }
    }

    /// The width of the hex digits of a full line.
    pub open spec fn hex_width(self) -> int {
        self.cols * 2 + if self.group > 0 {
            (self.cols - 1) / self.group as int
        } else {
            0
        }
    }

    /// One line of the dump.
    pub open spec fn dump_line(self, data: Seq<u8>, offset: nat) -> Seq<char> {
        if self.c_include {
            "  "@ + c_from(data, self.uppercase, 0) + ",\n"@
        } else if self.plain {
            plain_from(data, self.uppercase, 0) + seq!['\n']
        } else {
            zero_pad(digits(offset, 16, false), 8) + ": "@ + pad_right(
                self.grouped_from(data, 0),
                self.hex_width(),
            ) + "  "@ + data.map_values(|b: u8| shown(b)) + seq!['\n']
        }
    }

    /// The full lines of the dump of some data.
    pub open spec fn full_lines(self, data: Seq<u8>, offset: nat) -> Seq<char>
        decreases data.len(),
    {
        if self.cols < 1 || data.len() < self.cols {
            Seq::empty()
        } else {
            self.dump_line(data.take(self.cols as int), offset) + self.full_lines(
                data.skip(self.cols as int),
                offset + self.cols as nat,
            )
        }
    }

    /// What does not fill a line.
    pub open spec fn left_over(self, data: Seq<u8>) -> Seq<u8>
        decreases data.len(),
    {
        if self.cols < 1 || data.len() < self.cols {
            data
        } else {
            self.left_over(data.skip(self.cols as int))
        }
    }

    /// The dump of some data: the full lines, and what is left in a line of its own.
    pub open spec fn dump(self, data: Seq<u8>, offset: nat) -> Seq<char> {
        let rest = self.left_over(data);
        self.full_lines(data, offset) + if rest.len() == 0 {
            Seq::empty()
        } else {
            self.dump_line(rest, (offset + data.len() - rest.len()) as nat)
        }
    }

    /// Whether the width of a line can be counted, where it is.
    pub open spec fn fits(self) -> bool {
        &&& 1 <= self.cols
        &&& self.reverse || self.plain || self.c_include || self.hex_width() <= usize::MAX
    }

    /// Tests whether the width of a line can be counted, where it is.
    pub fn is_countable(&self) -> (r: bool)
        ensures
            r == self.fits(),
    {
        if self.cols < 1 {
            return false;
        }
        if self.reverse || self.plain || self.c_include {
            return true;
        }
        if self.group == 0 {
            return self.cols <= usize::MAX / 2;
        }
        let gaps = (self.cols - 1) / self.group;
        proof {
            assert(gaps < self.cols) by (nonlinear_arith)
                requires
                    gaps == (self.cols - 1) / self.group as int,
                    self.group >= 1,
                    self.cols >= 1,
            ;
        }
        self.cols <= (usize::MAX - gaps) / 2
    }
}

proof fn lemma_left_over(o: Options, data: Seq<u8>)
    requires
        o.cols >= 1,
    ensures
        o.left_over(data).len() < o.cols,
        o.left_over(data).len() <= data.len(),
    decreases data.len(),
{
    if data.len() >= o.cols {
        lemma_left_over(o, data.skip(o.cols as int));
    }
}

fn push_hex2(out: &mut String, b: u8, upper: bool)
    ensures
        final(out)@ == old(out)@ + hex2(b, upper),
{
    let ghost start = out@;
    out.push(hex_digit(b / 16, upper));
    out.push(hex_digit(b % 16, upper));
    proof {
        assert(out@ =~= start + hex2(b, upper));
    }
}

fn hex_digit(d: u8, upper: bool) -> (r: char)
    requires
        d < 16,
    ensures
        r == digit_char(d as int, upper),
{
    if d < 10 {
        (48 + d) as char
    } else if upper {
        (55 + d) as char
    } else {
        (87 + d) as char
    }
}

fn output_line(data: &Vec<u8>, offset: usize, o: &Options) -> (r: String)
    requires
        o.fits(),
        !o.reverse,
        data@.len() <= o.cols,
    ensures
        r@ == o.dump_line(data@, offset as nat),
{
    let mut line = String::new();
    if o.c_include {
        line.append("  ");
        proof {
            assert(line@ =~= "  "@);
        }
        let mut i: usize = 0;
        while i < data.len()
            invariant
                i <= data@.len(),
                line@ + c_from(data@, o.uppercase, i as int) == "  "@ + c_from(
                    data@,
                    o.uppercase,
                    0,
                ),
            decreases data@.len() - i,
        {
            let ghost before = line@;
            if i > 0 {
                line.append(", ");
            } else {
                proof {
                    assert(before + Seq::<char>::empty() =~= before);
                }
            }
            line.append("0x");
            push_hex2(&mut line, data[i], o.uppercase);
            proof {
                let lead = if i > 0 {
                    ", "@
                } else {
                    Seq::empty()
                };
                let item = lead + "0x"@ + hex2(data@[i as int], o.uppercase);
                assert(line@ =~= before + item);
                let rest = c_from(data@, o.uppercase, i + 1);
                assert(before + item + rest =~= before + (item + rest));
            }
            i += 1;
        }
        proof {
            assert(line@ + Seq::<char>::empty() =~= line@);
        }
        line.append(",\n");
    } else if o.plain {
        let mut i: usize = 0;
        proof {
            assert(line@ + plain_from(data@, o.uppercase, 0) =~= plain_from(data@, o.uppercase, 0));
        }
        while i < data.len()
            invariant
                i <= data@.len(),
                line@ + plain_from(data@, o.uppercase, i as int) == plain_from(
                    data@,
                    o.uppercase,
                    0,
                ),
            decreases data@.len() - i,
        {
            let ghost before = line@;
            push_hex2(&mut line, data[i], o.uppercase);
            proof {
                let item = hex2(data@[i as int], o.uppercase);
                assert(before + item + plain_from(data@, o.uppercase, i + 1) =~= before + (item
                    + plain_from(data@, o.uppercase, i + 1)));
            }
            i += 1;
        }
        proof {
            assert(line@ =~= plain_from(data@, o.uppercase, 0));
        }
        line.push('\n');
        proof {
            assert(line@ =~= plain_from(data@, o.uppercase, 0) + seq!['\n']);
        }
    } else {
        let hex = grouped(data, o);
        let ds = write_digits(offset as u64, 16, false);
        line = zero_padded(&ds, 8);
        line.append(": ");
        let cs = to_chars(hex.as_str());
        let mut width: usize = o.cols * 2;
        if o.group > 0 {
            proof {
                assert((o.cols - 1) / o.group as int <= o.cols) by (nonlinear_arith)
                    requires
                        o.group >= 1,
                        o.cols >= 1,
                ;
            }
            width = width + (o.cols - 1) / o.group;
        }
        let padded = padded_right(&cs, width);
        line.append(padded.as_str());
        line.append("  ");
        let ghost lead = line@;
        let mut i: usize = 0;
        let ghost all = data@.map_values(|b: u8| shown(b));
        while i < data.len()
            invariant
                i <= data@.len(),
                all == data@.map_values(|b: u8| shown(b)),
                line@ =~= lead + all.take(i as int),
            decreases data@.len() - i,
        {
            let b = data[i];
            if b >= 0x20 && b <= 0x7e {
                line.push(b as char);
            } else {
                line.push('.');
            }
            i += 1;
        }
        proof {
            assert(line@ =~= lead + all);
        }
        line.push('\n');
        proof {
            assert(line@ =~= lead + all + seq!['\n']);
        }
    }
    line
}

fn grouped(data: &Vec<u8>, o: &Options) -> (r: String)
    requires
        data@.len() <= o.cols,
    ensures
        r@ == o.grouped_from(data@, 0),
{
    let mut hex = String::new();
    let mut i: usize = 0;
    proof {
        assert(hex@ + o.grouped_from(data@, 0) =~= o.grouped_from(data@, 0));
    }
    while i < data.len()
        invariant
            data.len() == data@.len(),
            data@.len() <= o.cols,
            i <= data@.len(),
            hex@ + o.grouped_from(data@, i as int) == o.grouped_from(data@, 0),
        decreases data@.len() - i,
    {
        let ghost before = hex@;
        push_hex2(&mut hex, data[i], o.uppercase);
        let ghost mid = hex@;
        if o.group > 0 && (i + 1) % o.group == 0 && i + 1 < o.cols {
            hex.push(' ');
            proof {
                assert(hex@ =~= mid + seq![' ']);
            }
        } else {
            proof {
                assert(hex@ =~= mid + Seq::<char>::empty());
            }
        }
        proof {
            let item = hex2(data@[i as int], o.uppercase);
            let gap = if o.gap_after(i as int) {
                seq![' ']
            } else {
                Seq::empty()
            };
            assert(before + item + gap + o.grouped_from(data@, i + 1) =~= before + (item + gap
                + o.grouped_from(data@, i + 1)));
        }
        i += 1;
    }
    proof {
        assert(hex@ =~= o.grouped_from(data@, 0));
    }
    hex
}

/// A path as the name of a C variable.
pub open spec fn c_name(path: Seq<char>) -> Seq<char> {
    let s = basename(path).map_values(
        |c: char|
            if is_alnum(c) {
                c
            } else {
                '_'
            },
    );
    if s.len() > 0 && is_digit(s[0]) {
        seq!['_'] + s
    } else {
        s
    }
}

/// Makes a path the name of a C variable.
pub fn sanitize_c_name(path: &str) -> (r: String)
    ensures
        r@ == c_name(path@),
{
    let cs = to_chars(path);
    let parts = split_chars(&cs, '/');
    let ghost all = rows(parts@);
    proof {
        lemma_split_nonempty(cs@, 0);
        assert(all.len() == parts@.len());
    }
    let name = &parts[parts.len() - 1];
    let ghost s = name@.map_values(
        |c: char|
            if is_alnum(c) {
                c
            } else {
                '_'
            },
    );
    let mut out: Vec<char> = Vec::new();
    if name.len() > 0 && char_is_digit(name[0]) {
        out.push('_');
    }
    let ghost lead = out@;
    let mut i: usize = 0;
    while i < name.len()
        invariant
            i <= name@.len(),
            s == name@.map_values(
                |c: char|
                    if is_alnum(c) {
                        c
                    } else {
                        '_'
                    },
            ),
            out@ =~= lead + s.take(i as int),
        decreases name@.len() - i,
    {
        let c = name[i];
        if char_is_alpha(c) || char_is_digit(c) {
            out.push(c);
        } else {
            out.push('_');
        }
        i += 1;
    }
    proof {
        assert(name@ == basename(path@));
        assert(s.take(i as int) =~= s);
        if name@.len() > 0 {
            assert(s[0] == (if is_alnum(name@[0]) {
                name@[0]
            } else {
                '_'
            }));
        }
        assert(out@ =~= c_name(path@));
    }
    to_text(&out)
}

proof fn lemma_split_nonempty(s: Seq<char>, from: int)
    ensures
        crate::text::split_from(s, '/', from).len() > 0,
    decreases s.len() - from,
{
}

// ---------------------------------------------------------------------------
// Reading a dump back
// ---------------------------------------------------------------------------

/// A hex digit.
pub open spec fn is_hex(c: char) -> bool {
    is_digit(c) || 'a' <= c <= 'f' || 'A' <= c <= 'F'
}

/// The value of a hex digit.
pub open spec fn hex_value(c: char) -> int {
    if is_digit(c) {
        c as int - 48
    } else if 'a' <= c <= 'f' {
        c as int - 87
    } else {
        c as int - 55
    }
}

/// The hex digits of a text from `i` on.
pub open spec fn hex_from(s: Seq<char>, i: int) -> Seq<char>
    decreases s.len() - i,
{
    if i < 0 || i >= s.len() {
        Seq::empty()
    } else if is_hex(s[i]) {
        seq![s[i]] + hex_from(s, i + 1)
    } else {
        hex_from(s, i + 1)
    }
}

/// The bytes that pairs of hex digits from `i` on mean; a single one at the end
/// means nothing.
pub open spec fn pairs_from(h: Seq<char>, i: int) -> Seq<u8>
    decreases h.len() - i,
{
    if i < 0 || i + 1 >= h.len() {
        Seq::empty()
    } else {
        seq![(hex_value(h[i]) * 16 + hex_value(h[i + 1])) as u8] + pairs_from(h, i + 2)
    }
}

/// The bytes that the hex digits of a text mean.
pub open spec fn plain_bytes(s: Seq<char>) -> Seq<u8> {
    pairs_from(hex_from(s, 0), 0)
}

/// The part of a line of a dump that holds the bytes: behind the first colon, and
/// before two blanks.
pub open spec fn hex_part(line: Seq<char>) -> Seq<char> {
    let colon = find_from(line, ':', 0);
    let behind = if colon < line.len() {
        line.skip(colon + 1)
    } else {
        line
    };
    match find_sub_from(behind, seq![' ', ' '], 0) {
        Some(at) => behind.take(at),
        None => behind,
    }
}

/// The bytes that the lines of a dump from `i` on mean.
pub open spec fn dump_bytes_from(ls: Seq<Seq<char>>, i: int) -> Seq<u8>
    decreases ls.len() - i,
{
    if i < 0 || i >= ls.len() {
        Seq::empty()
    } else if trim(ls[i]).len() == 0 {
        dump_bytes_from(ls, i + 1)
    } else {
        plain_bytes(hex_part(trim(ls[i]))) + dump_bytes_from(ls, i + 1)
    }
}

fn char_hex(c: char) -> (r: Option<u8>)
    ensures
        match r {
            Some(v) => is_hex(c) && v == hex_value(c) && v < 16,
            None => !is_hex(c),
        },
{
    if char_is_digit(c) {
        Some((c as u32 - 48) as u8)
    } else if 'a' <= c && c <= 'f' {
        Some((c as u32 - 87) as u8)
    } else if 'A' <= c && c <= 'F' {
        Some((c as u32 - 55) as u8)
    } else {
        None
    }
}

fn plain_hex(s: &Vec<char>, output: &mut Vec<u8>)
    ensures
        final(output)@ == old(output)@ + plain_bytes(s@),
{
    let ghost start = output@;
    let mut ds: Vec<u8> = Vec::new();
    let ghost mut h: Seq<char> = Seq::empty();
    let mut i: usize = 0;
    proof {
        assert(h + hex_from(s@, 0) =~= hex_from(s@, 0));
    }
    while i < s.len()
        invariant
            i <= s@.len(),
            h + hex_from(s@, i as int) == hex_from(s@, 0),
            ds@.len() == h.len(),
            forall|k: int| 0 <= k < h.len() ==> #[trigger] ds@[k] == hex_value(h[k]) && ds@[k] < 16,
        decreases s@.len() - i,
    {
        match char_hex(s[i]) {
            Some(v) => {
                ds.push(v);
                proof {
                    let before = h;
                    h = h.push(s@[i as int]);
                    assert(h + hex_from(s@, i + 1) =~= before + hex_from(s@, i as int));
                }
            },
            None => {},
        }
        i += 1;
    }
    proof {
        assert(h =~= hex_from(s@, 0));
    }
    let mut k: usize = 0;
    while k < ds.len() && ds.len() - k >= 2
        invariant
            k <= ds@.len(),
            ds@.len() == h.len(),
            forall|m: int| 0 <= m < h.len() ==> #[trigger] ds@[m] == hex_value(h[m]) && ds@[m] < 16,
            output@ + pairs_from(h, k as int) == start + pairs_from(h, 0),
        decreases ds@.len() - k,
    {
        let ghost before = output@;
        let b = ds[k] * 16 + ds[k + 1];
        output.push(b);
        proof {
            assert(output@ + pairs_from(h, k + 2) =~= before + pairs_from(h, k as int));
        }
        k += 2;
    }
    proof {
        assert(output@ =~= start + pairs_from(h, 0));
    }
}

/// Reads plain hex: what is no hex digit counts for nothing.
pub fn parse_plain_hex(input: &str, output: &mut Vec<u8>)
    ensures
        final(output)@ == old(output)@ + plain_bytes(input@),
{
    let cs = to_chars(input);
    plain_hex(&cs, output);
}

/// Reads a dump with addresses.
pub fn parse_xxd_hex(input: &str, output: &mut Vec<u8>)
    ensures
        final(output)@ == old(output)@ + dump_bytes_from(lines(input@), 0),
{
    let ghost start = output@;
    let cs = to_chars(input);
    let ls = split_lines(&cs);
    let ghost all = rows(ls@);
    let mut blanks: Vec<char> = Vec::new();
    blanks.push(' ');
    blanks.push(' ');
    proof {
        assert(blanks@ =~= seq![' ', ' ']);
    }
    let mut i: usize = 0;
    while i < ls.len()
        invariant
            all == rows(ls@),
            blanks@ == seq![' ', ' '],
            i <= ls@.len(),
            output@ + dump_bytes_from(all, i as int) == start + dump_bytes_from(all, 0),
        decreases ls@.len() - i,
    {
        let ghost before = output@;
        let line = trim_chars(&ls[i]);
        if line.len() > 0 {
            proof {
                lemma_find_from(line@, ':', 0);
            }
            let colon = find_char(&line, ':', 0);
            let behind = if colon < line.len() {
                part(&line, colon + 1, line.len())
            } else {
                part(&line, 0, line.len())
            };
            proof {
                assert(behind@ =~= if colon < line@.len() {
                    line@.skip(colon + 1)
                } else {
                    line@
                });
            }
            let hex = match find_chars(&behind, &blanks, 0) {
                Some(at) => part(&behind, 0, at),
                None => part(&behind, 0, behind.len()),
            };
            proof {
                assert(hex@ =~= hex_part(line@));
            }
            plain_hex(&hex, output);
            proof {
                let item = plain_bytes(hex_part(line@));
                assert(before + item + dump_bytes_from(all, i + 1) =~= before + (item
                    + dump_bytes_from(all, i + 1)));
            }
        }
        i += 1;
    }
    proof {
        assert(output@ =~= start + dump_bytes_from(all, 0));
    }
}

// ---------------------------------------------------------------------------
// The command
// ---------------------------------------------------------------------------

/// A running xxd.
pub struct Xxd {
    pub opts: Options,
    /// The file to read, the first of these; stdin where there are none.
    pub files: Strings,
    /// How many bytes are still skipped.
    pub skip: usize,
    /// How many bytes have been taken.
    pub taken: usize,
    /// The address of the next line.
    pub offset: usize,
    /// What does not fill a line yet; for the reverse operation, all input.
    pub pending: Vec<u8>,
    /// Whether the rest of the input does not matter.
    pub over: bool,
}

/// What xxd finds in its arguments.
pub open spec fn xxd_tokens(argv: Seq<Seq<char>>) -> Seq<Tok> {
    arg_tokens(argv, seq!['c', 'g', 'l', 's'], false)
}

pub open spec fn wants_help(ts: Seq<Tok>) -> bool {
    ts.contains(Tok::Short('h')) || ts.contains(Tok::Long("help"@))
}

/// The number that is given last to an option, or another one.
pub open spec fn number_or(ts: Seq<Tok>, c: char, other: nat) -> nat {
    match last_number(ts, c, false, ts.len() as int) {
        Some(n) => n,
        None => other,
    }
}

impl Options {
    /// Whether these are the options that the tokens give.
    pub open spec fn follows(self, ts: Seq<Tok>) -> bool {
        &&& self.cols == if number_or(ts, 'c', 16) < 1 {
            1
        } else {
            number_or(ts, 'c', 16)
        }
        &&& self.group == number_or(ts, 'g', 2)
        &&& self.uppercase == ts.contains(Tok::Short('u'))
        &&& self.plain == ts.contains(Tok::Short('p'))
        &&& self.c_include == ts.contains(Tok::Short('i'))
        &&& self.reverse == ts.contains(Tok::Short('r'))
        &&& match self.length {
            Some(n) => last_number(ts, 'l', false, ts.len() as int) == Some(n as nat),
            None => last_number(ts, 'l', false, ts.len() as int) is None,
        }
        &&& self.seek == number_or(ts, 's', 0)
    }
}

/// Starts xxd.
pub fn run(argv: &Vec<String>) -> (r: Start<Xxd>)
    ensures
        ({
            let ts = xxd_tokens(strs(argv@));
            match r {
                Start::Done(said) => wants_help(ts) && said.says(HELP@, Seq::empty(), 0),
                Start::Go(x) => !wants_help(ts) && x.opts.follows(ts) && strings_of(x.files)
                    == values_from(ts, 0) && x.taken == 0 && x.pending@.len() == 0 && !x.over
                    && x.offset == x.opts.seek && x.skip == if x.opts.reverse {
                    0
                } else {
                    x.opts.seek
                },
            }
        }),
{
    let mut valued: Vec<char> = Vec::new();
    valued.push('c');
    valued.push('g');
    valued.push('l');
    valued.push('s');
    proof {
        assert(valued@ =~= seq!['c', 'g', 'l', 's']);
    }
    let ts = lex_args(argv, &valued, false);
    proof {
        assert(toks(ts@).len() == ts@.len());
    }
    if has_short(&ts, 'h') || has_long(&ts, "help") {
        return Start::Done(Said::output(HELP));
    }
    let cols = match last_count(&ts, 'c', false) {
        Some(n) => {
            if n < 1 {
                1
            } else {
                n
            }
        },
        None => 16,
    };
    let group = match last_count(&ts, 'g', false) {
        Some(n) => n,
        None => 2,
    };
    let seek = match last_count(&ts, 's', false) {
        Some(n) => n,
        None => 0,
    };
    let opts = Options {
        cols,
        group,
        uppercase: has_short(&ts, 'u'),
        plain: has_short(&ts, 'p'),
        c_include: has_short(&ts, 'i'),
        reverse: has_short(&ts, 'r'),
        length: last_count(&ts, 'l', false),
        seek,
    };
    Start::Go(
        Xxd {
            opts,
            files: values(&ts),
            skip: if opts.reverse {
                0
            } else {
                seek
            },
            taken: 0,
            offset: seek,
            pending: Vec::new(),
            over: false,
        },
    )
}

impl Xxd {
    /// The name of the variable in a C program.
    pub open spec fn variable(self) -> Seq<char> {
        if strings_of(self.files).len() > 0 {
            c_name(strings_of(self.files)[0])
        } else {
            "stdin"@
        }
    }

    /// How many bytes may still be taken.
    pub open spec fn allowance(self) -> int {
        match self.opts.length {
            Some(n) => n - self.taken,
            None => usize::MAX - self.taken,
        }
    }

    pub open spec fn wf(self) -> bool {
        self.opts.fits() && self.allowance() >= 0
    }

    fn name(&self) -> (r: String)
        ensures
            r@ == self.variable(),
    {
        if self.files.len() > 0 {
            sanitize_c_name(self.files.at(0))
        } else {
            "stdin".to_owned()
        }
    }

    /// How many bytes are read next; nothing where the rest of the input does not
    /// matter.
    pub fn wanted(&self) -> (r: usize)
        ensures
            r == if self.over {
                0
            } else if self.skip > 0 && self.skip < 4096 {
                self.skip as int
            } else {
                4096
            },
    {
        if self.over {
            0
        } else if self.skip > 0 && self.skip < 4096 {
            self.skip
        } else {
            4096
        }
    }

    /// What is printed before the dump.
    pub fn begin(&self) -> (r: String)
        ensures
            r@ == if self.opts.c_include && !self.opts.reverse {
                "unsigned char "@ + self.variable() + "[] = {\n"@
            } else {
                Seq::empty()
            },
    {
        let mut r = String::new();
        if self.opts.c_include && !self.opts.reverse {
            r = "unsigned char ".to_owned();
            let name = self.name();
            r.append(name.as_str());
            r.append("[] = {\n");
        }
        r
    }

    /// Takes a chunk of input and gives what is printed. While bytes are skipped, no
    /// more are taken than were wanted.
    pub fn feed(&mut self, chunk: &[u8]) -> (r: String)
        requires
            old(self).wf(),
            !old(self).over,
            old(self).skip > 0 ==> chunk@.len() <= old(self).skip,
            old(self).offset + old(self).pending@.len() + chunk@.len() <= usize::MAX,
        ensures
            final(self).wf(),
            final(self).opts == old(self).opts,
            final(self).files == old(self).files,
            if old(self).opts.reverse {
                r@ == Seq::<char>::empty() && final(self).pending@ == old(self).pending@ + chunk@
                    && !final(self).over
            } else if old(self).skip > 0 {
                r@ == Seq::<char>::empty() && final(self).skip == old(self).skip - chunk@.len()
                    && final(self).pending@ == old(self).pending@
                        && final(self).taken == old(self).taken
                        && final(self).offset == old(self).offset && !final(self).over
            } else {
                let more = chunk@.take(least(chunk@.len() as int, old(self).allowance()));
                let data = old(self).pending@ + more;
                &&& r@ == old(self).opts.full_lines(data, old(self).offset as nat)
                &&& final(self).pending@ == old(self).opts.left_over(data)
                &&& final(self).offset + final(self).pending@.len() == old(self).offset
                    + data.len()
                &&& final(self).taken == old(self).taken + more.len()
                &&& final(self).over == (final(self).allowance() == 0)
                &&& final(self).skip == 0
            },
    {
        let mut out = String::new();
        if self.opts.reverse {
            append_all(&mut self.pending, chunk);
            return out;
        }
        if self.skip > 0 {
            self.skip = self.skip - chunk.len();
            return out;
        }
        let max = match self.opts.length {
            Some(n) => n,
            None => usize::MAX,
        };
        let left = max - self.taken;
        let take = if chunk.len() <= left {
            chunk.len()
        } else {
            left
        };
        let piece = part(chunk, 0, take);
        proof {
            assert(piece@ =~= chunk@.take(take as int));
        }
        append_all(&mut self.pending, &piece);
        self.taken = self.taken + take;
        let ghost start = *self;
        let ghost data = self.pending@;
        let ghost whole = self.opts.full_lines(data, self.offset as nat);
        proof {
            assert(out@ + whole =~= whole);
        }
        while self.pending.len() >= self.opts.cols
            invariant
                self.opts == start.opts,
                self.files == start.files,
                self.skip == start.skip,
                self.taken == start.taken,
                self.over == start.over,
                self.opts.fits(),
                !self.opts.reverse,
                self.offset + self.pending@.len() == start.offset + data.len(),
                start.offset + data.len() <= usize::MAX,
                self.opts.left_over(self.pending@) == self.opts.left_over(data),
                out@ + self.opts.full_lines(self.pending@, self.offset as nat) == whole,
            decreases self.pending@.len(),
        {
            let ghost before = out@;
            let ghost now = self.pending@;
            let n = self.pending.len();
            let line = part(&self.pending, 0, self.opts.cols);
            let rest = part(&self.pending, self.opts.cols, n);
            proof {
                assert(line@ =~= now.take(self.opts.cols as int));
                assert(rest@ =~= now.skip(self.opts.cols as int));
            }
            let text = output_line(&line, self.offset, &self.opts);
            out.append(text.as_str());
            self.pending = rest;
            self.offset = self.offset + self.opts.cols;
            proof {
                let more = self.opts.full_lines(rest@, self.offset as nat);
                assert(before + text@ + more =~= before + (text@ + more));
            }
        }
        proof {
            assert(out@ =~= whole);
        }
        self.over = self.taken >= max;
        out
    }

    /// Takes the end of the input and gives what is printed.
    pub fn end(&mut self) -> (r: Vec<u8>)
        requires
            old(self).wf(),
            !old(self).opts.reverse ==> old(self).pending@.len() < old(self).opts.cols,
        ensures
            r@ == if old(self).opts.reverse {
                let text = lossy(old(self).pending@);
                if old(self).opts.plain {
                    plain_bytes(text)
                } else {
                    dump_bytes_from(lines(text), 0)
                }
            } else {
                vstd::utf8::encode_utf8(old(self).last_text())
            },
    {
        if self.opts.reverse {
            let text = read_lossy(&self.pending);
            let mut out: Vec<u8> = Vec::new();
            if self.opts.plain {
                parse_plain_hex(text.as_str(), &mut out);
            } else {
                parse_xxd_hex(text.as_str(), &mut out);
            }
            proof {
                assert(out@ =~= if self.opts.plain {
                    plain_bytes(text@)
                } else {
                    dump_bytes_from(lines(text@), 0)
                });
            }
            return out;
        }
        let mut s = String::new();
        if self.pending.len() > 0 {
            s = output_line(&self.pending, self.offset, &self.opts);
        }
        let ghost line = s@;
        if self.opts.c_include {
            s.append("};\nunsigned int ");
            let name = self.name();
            s.append(name.as_str());
            s.append("_len = ");
            let ds = write_decimal(self.taken as u64);
            push_chars(&mut s, &ds);
            s.append(";\n");
            proof {
                assert(s@ =~= line + ("};\nunsigned int "@ + name@ + "_len = "@ + ds@ + ";\n"@));
            }
        } else {
            proof {
                assert(s@ =~= line + Seq::<char>::empty());
            }
        }
        let b = s.as_str().as_bytes();
        part(b, 0, b.len())
    }

    /// What is printed when the input ends: the last line, and for a C program the
    /// end of the array and its length.
    pub open spec fn last_text(self) -> Seq<char> {
        (if self.pending@.len() > 0 {
            self.opts.dump_line(self.pending@, self.offset as nat)
        } else {
            Seq::empty()
        }) + if self.opts.c_include {
            "};\nunsigned int "@ + self.variable() + "_len = "@ + decimal(self.taken as nat)
                + ";\n"@
        } else {
            Seq::empty()
        }
    }

    /// The complaint about a file that cannot be opened. The exit code is then 1.
    pub fn refused(&self, path: &str, e: &IoError) -> (r: Said)
        ensures
            r.says(Seq::empty(), refusal("xxd"@, path@, e.spec_message()), 1),
    {
        Said { out: String::new(), err: refusal_line("xxd", path, e), code: 1 }
    }
}

// ---------------------------------------------------------------------------
// Laws
// ---------------------------------------------------------------------------

/// How input is cut into chunks does not matter: the full lines of two chunks are
/// those of the first, and those of what it left with the second.
pub proof fn law_dump_in_chunks(o: Options, a: Seq<u8>, b: Seq<u8>, offset: nat)
    requires
        o.cols >= 1,
    ensures
        o.full_lines(a + b, offset) == o.full_lines(a, offset) + o.full_lines(
            o.left_over(a) + b,
            (offset + a.len() - o.left_over(a).len()) as nat,
        ),
        o.left_over(a + b) == o.left_over(o.left_over(a) + b),
    decreases a.len(),
{
    let n = o.cols as int;
    lemma_left_over(o, a);
    if a.len() < n {
        assert(Seq::<char>::empty() + o.full_lines(a + b, offset) =~= o.full_lines(a + b, offset));
    } else {
        let rest = a.skip(n);
        law_dump_in_chunks(o, rest, b, offset + o.cols as nat);
        assert((a + b).take(n) =~= a.take(n));
        assert((a + b).skip(n) =~= rest + b);
        let line = o.dump_line(a.take(n), offset);
        let x = o.full_lines(rest, offset + o.cols as nat);
        let y = o.full_lines(
            o.left_over(a) + b,
            (offset + a.len() - o.left_over(a).len()) as nat,
        );
        assert(line + (x + y) =~= (line + x) + y);
    }
}

proof fn lemma_hex_digit(d: int, upper: bool)
    requires
        0 <= d < 16,
    ensures
        is_hex(digit_char(d, upper)),
        hex_value(digit_char(d, upper)) == d,
        digit_char(d, upper) != ' ',
        digit_char(d, upper) != ':',
        digit_char(d, upper) != '\n',
        !crate::text::is_space(digit_char(d, upper)),
{
    if d < 10 {
        assert(digit_char(d, upper) as int == 48 + d);
    } else if upper {
        assert(digit_char(d, upper) as int == 55 + d);
    } else {
        assert(digit_char(d, upper) as int == 87 + d);
    }
}

proof fn lemma_hex2(b: u8, upper: bool)
    ensures
        hex_from(hex2(b, upper), 0) == hex2(b, upper),
        hex_value(hex2(b, upper)[0]) * 16 + hex_value(hex2(b, upper)[1]) == b,
        forall|i: int|
            0 <= i < 2 ==> is_hex(#[trigger] hex2(b, upper)[i]) && hex2(b, upper)[i] != ' ' && hex2(
                b,
                upper,
            )[i] != '\n' && !crate::text::is_space(hex2(b, upper)[i]),
{
    lemma_hex_digit((b / 16) as int, upper);
    lemma_hex_digit((b % 16) as int, upper);
    let h = hex2(b, upper);
    assert(is_hex(h[0]) && is_hex(h[1]));
    assert(hex_from(h, 2) =~= Seq::<char>::empty());
    assert(hex_from(h, 1) =~= seq![h[1]]);
    assert(hex_from(h, 0) =~= h);
}

proof fn lemma_hex_append(a: Seq<char>, b: Seq<char>, i: int)
    requires
        0 <= i <= a.len(),
    ensures
        hex_from(a + b, i) == hex_from(a, i) + hex_from(b, 0),
    decreases a.len() - i,
{
    if i < a.len() {
        lemma_hex_append(a, b, i + 1);
        assert((a + b)[i] == a[i]);
        if is_hex(a[i]) {
            assert(seq![a[i]] + (hex_from(a, i + 1) + hex_from(b, 0)) =~= (seq![a[i]] + hex_from(
                a,
                i + 1,
            )) + hex_from(b, 0));
        }
    } else {
        lemma_hex_skip(a, b, 0);
        assert(Seq::<char>::empty() + hex_from(b, 0) =~= hex_from(b, 0));
    }
}

proof fn lemma_hex_skip(a: Seq<char>, b: Seq<char>, i: int)
    requires
        0 <= i <= b.len(),
    ensures
        hex_from(a + b, a.len() + i) == hex_from(b, i),
    decreases b.len() - i,
{
    if i < b.len() {
        lemma_hex_skip(a, b, i + 1);
        assert((a + b)[a.len() + i] == b[i]);
    }
}

proof fn lemma_pairs_skip(a: Seq<char>, b: Seq<char>, i: int)
    requires
        0 <= i <= b.len(),
    ensures
        pairs_from(a + b, a.len() + i) == pairs_from(b, i),
    decreases b.len() - i,
{
    if i + 1 < b.len() {
        lemma_pairs_skip(a, b, i + 2);
        assert((a + b)[a.len() + i] == b[i]);
        assert((a + b)[a.len() + i + 1] == b[i + 1]);
    }
}

/// The pairs of the hex digits of some bytes mean those bytes.
proof fn lemma_pairs_of_plain(data: Seq<u8>, upper: bool, i: int)
    requires
        0 <= i <= data.len(),
    ensures
        pairs_from(plain_from(data, upper, i), 0) == data.skip(i),
    decreases data.len() - i,
{
    if i < data.len() {
        lemma_pairs_of_plain(data, upper, i + 1);
        lemma_hex2(data[i], upper);
        let h = hex2(data[i], upper);
        let rest = plain_from(data, upper, i + 1);
        lemma_pairs_skip(h, rest, 0);
        assert((h + rest)[0] == h[0]);
        assert((h + rest)[1] == h[1]);
        assert(data.skip(i) =~= seq![data[i]] + data.skip(i + 1));
    } else {
        assert(data.skip(i) =~= Seq::<u8>::empty());
    }
}

proof fn lemma_hex_of_plain(data: Seq<u8>, upper: bool, i: int)
    requires
        0 <= i <= data.len(),
    ensures
        hex_from(plain_from(data, upper, i), 0) == plain_from(data, upper, i),
    decreases data.len() - i,
{
    if i < data.len() {
        lemma_hex_of_plain(data, upper, i + 1);
        lemma_hex2(data[i], upper);
        lemma_hex_append(hex2(data[i], upper), plain_from(data, upper, i + 1), 0);
    }
}

proof fn lemma_plain_append(a: Seq<u8>, b: Seq<u8>, upper: bool, i: int)
    requires
        0 <= i <= a.len(),
    ensures
        plain_from(a + b, upper, i) == plain_from(a, upper, i) + plain_from(b, upper, 0),
    decreases a.len() - i,
{
    if i < a.len() {
        lemma_plain_append(a, b, upper, i + 1);
        assert((a + b)[i] == a[i]);
        let h = hex2(a[i], upper);
        assert(h + (plain_from(a, upper, i + 1) + plain_from(b, upper, 0)) =~= (h + plain_from(
            a,
            upper,
            i + 1,
        )) + plain_from(b, upper, 0));
    } else {
        lemma_plain_skip(a, b, upper, 0);
        assert(Seq::<char>::empty() + plain_from(b, upper, 0) =~= plain_from(b, upper, 0));
    }
}

proof fn lemma_plain_skip(a: Seq<u8>, b: Seq<u8>, upper: bool, i: int)
    requires
        0 <= i <= b.len(),
    ensures
        plain_from(a + b, upper, a.len() + i) == plain_from(b, upper, i),
    decreases b.len() - i,
{
    if i < b.len() {
        lemma_plain_skip(a, b, upper, i + 1);
        assert((a + b)[a.len() + i] == b[i]);
    }
}

/// The dump of what fills a line or more is that line and the dump of the rest.
proof fn lemma_dump_unfold(o: Options, data: Seq<u8>, offset: nat)
    requires
        o.cols >= 1,
    ensures
        data.len() == 0 ==> o.dump(data, offset) == Seq::<char>::empty(),
        0 < data.len() < o.cols ==> o.dump(data, offset) == o.dump_line(data, offset),
        data.len() >= o.cols ==> o.dump(data, offset) == o.dump_line(
            data.take(o.cols as int),
            offset,
        ) + o.dump(data.skip(o.cols as int), offset + o.cols as nat),
{
    let n = o.cols as int;
    if data.len() >= n {
        let rest = data.skip(n);
        let line = o.dump_line(data.take(n), offset);
        assert(o.dump(data, offset) =~= line + o.dump(rest, offset + o.cols as nat));
    } else if data.len() > 0 {
        assert(Seq::<char>::empty() + o.dump_line(data, offset) =~= o.dump_line(data, offset));
    } else {
        assert(Seq::<char>::empty() + Seq::<char>::empty() =~= Seq::<char>::empty());
    }
}

proof fn lemma_plain_dump_hex(o: Options, data: Seq<u8>, offset: nat)
    requires
        o.cols >= 1,
        o.plain,
        !o.c_include,
    ensures
        hex_from(o.dump(data, offset), 0) == plain_from(data, o.uppercase, 0),
    decreases data.len(),
{
    let n = o.cols as int;
    lemma_dump_unfold(o, data, offset);
    let newline = seq!['\n'];
    assert(hex_from(newline, 1) =~= Seq::<char>::empty());
    assert(hex_from(newline, 0) =~= Seq::<char>::empty());
    if data.len() >= n {
        let first = data.take(n);
        let rest = data.skip(n);
        lemma_plain_dump_hex(o, rest, offset + o.cols as nat);
        let text = plain_from(first, o.uppercase, 0);
        lemma_hex_append(text + newline, o.dump(rest, offset + o.cols as nat), 0);
        lemma_hex_append(text, newline, 0);
        lemma_hex_of_plain(first, o.uppercase, 0);
        lemma_plain_append(first, rest, o.uppercase, 0);
        assert(first + rest =~= data);
        assert(text + Seq::<char>::empty() =~= text);
    } else if data.len() > 0 {
        let text = plain_from(data, o.uppercase, 0);
        lemma_hex_append(text, newline, 0);
        lemma_hex_of_plain(data, o.uppercase, 0);
        assert(text + Seq::<char>::empty() =~= text);
    }
}

/// Reading a plain dump gives the dumped bytes back, whatever the length of its
/// lines and the case of its digits.
pub proof fn law_plain_dump_reads_back(o: Options, data: Seq<u8>, offset: nat)
    requires
        o.cols >= 1,
        o.plain,
        !o.c_include,
    ensures
        plain_bytes(o.dump(data, offset)) == data,
{
    lemma_plain_dump_hex(o, data, offset);
    lemma_pairs_of_plain(data, o.uppercase, 0);
    assert(data.skip(0) =~= data);
}

// The dump with addresses

/// What is known of the hex digits of a line: blanks and hex digits, and no two
/// blanks in a row.
spec fn tidy(g: Seq<char>) -> bool {
    &&& forall|k: int| 0 <= k < g.len() ==> (#[trigger] g[k]) == ' ' || is_hex(g[k])
    &&& forall|k: int| 0 <= k < g.len() - 1 ==> !((#[trigger] g[k]) == ' ' && g[k + 1] == ' ')
}

proof fn lemma_grouped(o: Options, data: Seq<u8>, i: int)
    requires
        0 <= i <= data.len(),
    ensures
        tidy(o.grouped_from(data, i)),
        i < data.len() ==> o.grouped_from(data, i).len() >= 2 && is_hex(o.grouped_from(data, i)[0])
            && o.grouped_from(data, i)[0] != ' ',
        hex_from(o.grouped_from(data, i), 0) == plain_from(data, o.uppercase, i),
    decreases data.len() - i,
{
    if i < data.len() {
        lemma_grouped(o, data, i + 1);
        lemma_hex2(data[i], o.uppercase);
        let h = hex2(data[i], o.uppercase);
        let gap = if o.gap_after(i) {
            seq![' ']
        } else {
            Seq::empty()
        };
        let rest = o.grouped_from(data, i + 1);
        let g = h + gap + rest;
        assert(g == o.grouped_from(data, i));
        assert(h[0] != ' ' && h[1] != ' ');
        assert forall|k: int| 0 <= k < g.len() implies (#[trigger] g[k]) == ' ' || is_hex(g[k]) by {
            if k < 2 {
                assert(g[k] == h[k]);
            } else if k < 2 + gap.len() {
                assert(g[k] == gap[k - 2]);
            } else {
                assert(g[k] == rest[k - 2 - gap.len()]);
            }
        }
        assert forall|k: int| 0 <= k < g.len() - 1 implies !((#[trigger] g[k]) == ' ' && g[k + 1]
            == ' ') by {
            if k < 2 {
                assert(g[k] == h[k]);
            } else if k < 2 + gap.len() {
                assert(g[k + 1] == rest[0]);
                if i + 1 >= data.len() {
                    assert(rest.len() == 0);
                }
            } else {
                let m = k - 2 - gap.len();
                assert(g[k] == rest[m]);
                assert(g[k + 1] == rest[m + 1]);
            }
        }
        assert(g[0] == h[0]);
        assert(hex_from(seq![' '], 1) =~= Seq::<char>::empty());
        assert(hex_from(seq![' '], 0) =~= Seq::<char>::empty());
        lemma_hex_append(h + gap, rest, 0);
        lemma_hex_append(h, gap, 0);
        assert(hex_from(gap, 0) =~= Seq::<char>::empty());
        assert(h + Seq::<char>::empty() =~= h);
    }
}

proof fn lemma_digits_hex(n: nat)
    ensures
        digits(n, 16, false).len() >= 1,
        forall|k: int|
            0 <= k < digits(n, 16, false).len() ==> is_hex(#[trigger] digits(n, 16, false)[k])
                && digits(n, 16, false)[k] != ':' && digits(n, 16, false)[k] != '\n'
                && !crate::text::is_space(digits(n, 16, false)[k]),
    decreases n,
{
    if n < 16 {
        lemma_hex_digit(n as int, false);
    } else {
        lemma_digits_hex(n / 16);
        lemma_hex_digit((n % 16) as int, false);
    }
}

proof fn lemma_trim_end(s: Seq<char>, n: int) -> (k: int)
    requires
        0 < n <= s.len(),
        !crate::text::is_space(s[0]),
        !crate::text::is_space(s[n - 1]),
    ensures
        n <= k <= s.len(),
        trim(s) == s.take(k),
        !crate::text::is_space(s[k - 1]),
    decreases s.len(),
{
    if crate::text::is_space(s.last()) {
        let k = lemma_trim_end(s.drop_last(), n);
        assert(s.drop_last().take(k) =~= s.take(k));
        k
    } else {
        assert(s.take(s.len() as int) =~= s);
        s.len() as int
    }
}

/// The hex digits of a line without the blank that may end them.
spec fn stripped(g: Seq<char>) -> Seq<char> {
    if g.len() > 0 && g.last() == ' ' {
        g.drop_last()
    } else {
        g
    }
}

/// What stands between the colon and two blanks is found again.
proof fn lemma_hex_part(addr: Seq<char>, core: Seq<char>, tail: Seq<char>)
    requires
        addr.len() > 0,
        forall|k: int|
            0 <= k < addr.len() ==> (#[trigger] addr[k]) != ':' && !crate::text::is_space(addr[k]),
        core.len() > 0,
        !crate::text::is_space(core.last()),
        forall|k: int| 0 <= k < core.len() - 1 ==> !((#[trigger] core[k]) == ' ' && core[k + 1] == ' '),
        tail.len() >= 2,
        tail[0] == ' ',
        tail[1] == ' ',
    ensures
        trim(addr + seq![':'] + core + tail).len() > 0,
        hex_part(trim(addr + seq![':'] + core + tail)) == core,
{
    let head = addr + seq![':'] + core;
    let body = head + tail;
    let n = head.len() as int;
    assert(head[n - 1] == core.last());
    assert(body[n - 1] == head[n - 1]);
    assert(body[0] == addr[0]);
    let k = lemma_trim_end(body, n);
    let t = trim(body);
    let colon = addr.len() as int;
    assert forall|j: int| 0 <= j < colon implies t[j] != ':' by {
        assert(t[j] == addr[j]);
    }
    assert(t[colon] == ':');
    crate::text::lemma_find_is(t, ':', 0, colon);
    let behind = t.skip(colon + 1);
    let c = core.len() as int;
    assert forall|j: int| 0 <= j < c implies behind[j] == core[j] by {
        assert(behind[j] == body[colon + 1 + j]);
    }
    let two = seq![' ', ' '];
    assert forall|j: int| 0 <= j < c implies !crate::text::occurs_at(behind, two, j) by {
        if crate::text::occurs_at(behind, two, j) {
            let w = behind.subrange(j, j + 2);
            assert(w[0] == behind[j] && w[1] == behind[j + 1]);
            assert(w[0] == ' ' && w[1] == ' ');
            assert(behind[j] == core[j]);
            if j < c - 1 {
                assert(behind[j + 1] == core[j + 1]);
            }
        }
    }
    lemma_find_sub(behind, two, 0);
    if k == n {
        assert(behind =~= core);
        match find_sub_from(behind, two, 0) {
            Some(at) => {
                assert(crate::text::occurs_at(behind, two, at));
            },
            None => {},
        }
    } else {
        assert(body[n] == tail[0] && body[n + 1] == tail[1]);
        assert(k > n + 2);
        assert(behind[c] == body[n]);
        assert(behind[c + 1] == body[n + 1]);
        assert(behind.subrange(c, c + 2) =~= two);
        assert(crate::text::occurs_at(behind, two, c));
        match find_sub_from(behind, two, 0) {
            Some(at) => {
                assert(at == c);
            },
            None => {},
        }
        assert(behind.take(c) =~= core);
    }
}

/// The hex digits of a line without the blank that may end them: there are some, no
/// blank ends them, and they mean the same bytes.
proof fn lemma_stripped(o: Options, data: Seq<u8>)
    requires
        data.len() > 0,
    ensures
        ({
            let g = o.grouped_from(data, 0);
            let c = seq![' '] + stripped(g);
            &&& stripped(g).len() > 0
            &&& is_hex(stripped(g).last())
            &&& tidy(c)
            &&& plain_bytes(c) == data
        }),
{
    let g = o.grouped_from(data, 0);
    let t = stripped(g);
    let blank = seq![' '];
    let c = blank + t;
    lemma_grouped(o, data, 0);
    if g.last() == ' ' {
        assert(g.len() >= 3) by {
            if g.len() == 2 {
                lemma_hex2(data[0], o.uppercase);
                assert(g[1] == hex2(data[0], o.uppercase)[1]);
            }
        }
        let m = g.len() - 2;
        assert(!(g[m] == ' ' && g[m + 1] == ' '));
        assert(t.last() == g[m]);
    }
    assert(t[0] == g[0]);
    assert forall|k: int| 0 <= k < c.len() implies (#[trigger] c[k]) == ' ' || is_hex(c[k]) by {
        if k > 0 {
            assert(c[k] == g[k - 1]);
        }
    }
    assert forall|k: int| 0 <= k < c.len() - 1 implies !((#[trigger] c[k]) == ' ' && c[k + 1]
        == ' ') by {
        assert(c[k + 1] == g[k]);
        if k > 0 {
            assert(c[k] == g[k - 1]);
        }
    }
    assert(hex_from(blank, 1) =~= Seq::<char>::empty());
    assert(hex_from(blank, 0) =~= Seq::<char>::empty());
    lemma_hex_append(blank, t, 0);
    assert(Seq::<char>::empty() + hex_from(t, 0) =~= hex_from(t, 0));
    if g.last() == ' ' {
        assert(g =~= t + blank);
        lemma_hex_append(t, blank, 0);
        assert(hex_from(t, 0) + Seq::<char>::empty() =~= hex_from(t, 0));
    }
    lemma_pairs_of_plain(data, o.uppercase, 0);
    assert(data.skip(0) =~= data);
}

proof fn lemma_regroup(
    addr: Seq<char>,
    t: Seq<char>,
    end: Seq<char>,
    pad: Seq<char>,
    ascii: Seq<char>,
)
    ensures
        addr + seq![':', ' '] + (t + end + pad) + seq![' ', ' '] + ascii + seq!['\n'] == addr
            + seq![':'] + (seq![' '] + t) + (end + pad + seq![' ', ' '] + ascii) + seq!['\n'],
{
    let colon = seq![':'];
    let blank = seq![' '];
    let two = seq![' ', ' '];
    assert(seq![':', ' '] =~= colon + blank);
    assert(addr + (colon + blank) =~= addr + colon + blank);
    assert(addr + colon + blank + (t + end + pad) =~= addr + colon + (blank + t) + (end + pad));
    let front = addr + colon + (blank + t);
    assert(front + (end + pad) + two + ascii =~= front + (end + pad + two + ascii));
}

/// How a line of a dump is made: the address, a colon, the hex digits, two blanks or
/// more, and the characters.
proof fn lemma_layout(o: Options, data: Seq<u8>, offset: nat) -> (tail: Seq<char>)
    requires
        data.len() > 0,
        !o.plain,
        !o.c_include,
    ensures
        o.dump_line(data, offset) == zero_pad(digits(offset, 16, false), 8) + seq![':'] + (seq![' ']
            + stripped(o.grouped_from(data, 0))) + tail + seq!['\n'],
        tail.len() >= 3,
        tail[0] == ' ',
        tail[1] == ' ',
        tail.last() != '\r',
        forall|k: int| 0 <= k < tail.len() ==> tail[k] != '\n',
{
    reveal_strlit(": ");
    reveal_strlit("  ");
    let addr = zero_pad(digits(offset, 16, false), 8);
    let g = o.grouped_from(data, 0);
    let t = stripped(g);
    let pad = crate::text::repeated(' ', o.hex_width() - g.len());
    let ascii = data.map_values(|b: u8| shown(b));
    let end = if g.len() > 0 && g.last() == ' ' {
        seq![' ']
    } else {
        Seq::empty()
    };
    assert(g =~= t + end);
    assert(": "@ =~= seq![':', ' ']);
    assert("  "@ =~= seq![' ', ' ']);
    let tail = end + pad + seq![' ', ' '] + ascii;
    assert(pad_right(g, o.hex_width()) == t + end + pad);
    lemma_regroup(addr, t, end, pad, ascii);
    let lead = end + pad + seq![' ', ' '];
    assert forall|k: int| 0 <= k < lead.len() implies lead[k] == ' ' by {}
    assert(lead.len() >= 2);
    assert(tail =~= lead + ascii);
    assert(tail[0] == lead[0] && tail[1] == lead[1]);
    assert(ascii.last() == shown(data.last()));
    assert(tail.last() == ascii.last());
    assert forall|k: int| 0 <= k < tail.len() implies tail[k] != '\n' by {
        if k < lead.len() {
            assert(tail[k] == lead[k]);
        } else {
            assert(tail[k] == shown(data[k - lead.len()]));
        }
    }
    tail
}

/// The line of a dump, without its newline, means the bytes that it was made of.
proof fn lemma_line_means(o: Options, data: Seq<u8>, offset: nat)
    requires
        o.cols >= 1,
        data.len() > 0,
        !o.plain,
        !o.c_include,
    ensures
        ({
            let body = o.dump_line(data, offset).drop_last();
            &&& o.dump_line(data, offset).len() > 0
            &&& o.dump_line(data, offset).last() == '\n'
            &&& forall|k: int| 0 <= k < body.len() ==> body[k] != '\n'
            &&& body.len() > 0
            &&& body.last() != '\r'
            &&& trim(body).len() > 0
            &&& plain_bytes(hex_part(trim(body))) == data
        }),
{
    let ds = digits(offset, 16, false);
    let addr = zero_pad(ds, 8);
    let core = seq![' '] + stripped(o.grouped_from(data, 0));
    let tail = lemma_layout(o, data, offset);
    let line = o.dump_line(data, offset);
    let body = addr + seq![':'] + core + tail;
    assert(line.drop_last() =~= body);
    lemma_digits_hex(offset);
    let z = addr.len() - ds.len();
    assert forall|k: int| 0 <= k < addr.len() implies (#[trigger] addr[k]) != ':' && addr[k] != '\n'
        && !crate::text::is_space(addr[k]) by {
        if k >= z {
            assert(addr[k] == ds[k - z]);
        } else {
            assert(addr[k] == '0');
        }
    }
    lemma_stripped(o, data);
    lemma_hex_part(addr, core, tail);
    assert(body.last() == tail.last());
    assert forall|k: int| 0 <= k < body.len() implies body[k] != '\n' by {
        if k < addr.len() {
            assert(body[k] == addr[k]);
        } else if k == addr.len() {
            assert(body[k] == ':');
        } else if k < addr.len() + 1 + core.len() {
            assert(body[k] == core[k - addr.len() - 1]);
        } else {
            assert(body[k] == tail[k - addr.len() - 1 - core.len()]);
        }
    }
}

proof fn lemma_lines_shift(a: Seq<char>, b: Seq<char>, i: int)
    requires
        0 <= i <= b.len(),
    ensures
        crate::text::lines_from(a + b, a.len() + i) == crate::text::lines_from(b, i),
    decreases b.len() - i,
{
    let s = a + b;
    let n = a.len() as int;
    if i < b.len() {
        lemma_find_from(b, '\n', i);
        let j = find_from(b, '\n', i);
        assert forall|k: int| n + i <= k < n + j implies s[k] != '\n' by {
            assert(s[k] == b[k - n]);
        }
        if j < b.len() {
            assert(s[n + j] == b[j]);
            crate::text::lemma_find_is(s, '\n', n + i, n + j);
            lemma_lines_shift(a, b, j + 1);
            assert(s.subrange(n + i, n + j) =~= b.subrange(i, j));
        } else {
            crate::text::lemma_find_is(s, '\n', n + i, n + j);
            assert(s.skip(n + i) =~= b.skip(i));
        }
    }
}

proof fn lemma_lines_split(line: Seq<char>, rest: Seq<char>)
    requires
        line.len() > 1,
        line.last() == '\n',
        forall|k: int| 0 <= k < line.len() - 1 ==> line[k] != '\n',
        line[line.len() - 2] != '\r',
    ensures
        lines(line + rest) == seq![line.drop_last()] + lines(rest),
{
    let s = line + rest;
    let j = line.len() - 1;
    assert forall|k: int| 0 <= k < j implies s[k] != '\n' by {
        assert(s[k] == line[k]);
    }
    assert(s[j] == '\n');
    crate::text::lemma_find_is(s, '\n', 0, j);
    assert(s.subrange(0, j) =~= line.drop_last());
    lemma_lines_shift(line, rest, 0);
}

proof fn lemma_dump_bytes_skip(a: Seq<Seq<char>>, b: Seq<Seq<char>>, i: int)
    requires
        0 <= i <= b.len(),
    ensures
        dump_bytes_from(a + b, a.len() + i) == dump_bytes_from(b, i),
    decreases b.len() - i,
{
    if i < b.len() {
        lemma_dump_bytes_skip(a, b, i + 1);
        assert((a + b)[a.len() + i] == b[i]);
    }
}

/// Reading a dump with addresses gives the dumped bytes back, whatever the length of
/// its lines, the size of its groups and the case of its digits.
pub proof fn law_dump_reads_back(o: Options, data: Seq<u8>, offset: nat)
    requires
        o.cols >= 1,
        !o.plain,
        !o.c_include,
    ensures
        dump_bytes_from(lines(o.dump(data, offset)), 0) == data,
    decreases data.len(),
{
    let n = o.cols as int;
    lemma_dump_unfold(o, data, offset);
    if data.len() == 0 {
        assert(data =~= Seq::<u8>::empty());
    } else {
        let (first, rest, more) = if data.len() >= n {
            (data.take(n), data.skip(n), o.dump(data.skip(n), offset + o.cols as nat))
        } else {
            (data, Seq::<u8>::empty(), Seq::<char>::empty())
        };
        let line = o.dump_line(first, offset);
        lemma_line_means(o, first, offset);
        assert(o.dump(data, offset) =~= line + more);
        let body = line.drop_last();
        assert forall|k: int| 0 <= k < line.len() - 1 implies line[k] != '\n' by {
            assert(line[k] == body[k]);
        }
        assert(line[line.len() - 2] == body.last());
        lemma_lines_split(line, more);
        if data.len() >= n {
            law_dump_reads_back(o, rest, offset + o.cols as nat);
        }
        let a = seq![body];
        lemma_dump_bytes_skip(a, lines(more), 0);
        assert((a + lines(more))[0] == body);
        assert(dump_bytes_from(lines(more), 0) == rest);
        assert(first + rest =~= data);
    }
}

/// A byte is written as two digits, its sixteens before its ones.
pub proof fn law_hex_digits(b: u8, upper: bool)
    ensures
        hex2(b, upper).len() == 2,
        b / 16 < 10 ==> hex2(b, upper)[0] == (48 + b / 16) as char,
        b % 16 < 10 ==> hex2(b, upper)[1] == (48 + b % 16) as char,
        b / 16 >= 10 ==> hex2(b, upper)[0] == (b / 16 + if upper {
            55int
        } else {
            87
        }) as char,
        b % 16 >= 10 ==> hex2(b, upper)[1] == (b % 16 + if upper {
            55int
        } else {
            87
        }) as char,
{
}

/// The hex digits are those from 0 to 9 and the letters from a to f in either case.
pub proof fn law_values_of_hex_digits(c: char)
    ensures
        '0' <= c <= '9' ==> is_hex(c) && hex_value(c) == c as int - '0' as int,
        'a' <= c <= 'f' ==> is_hex(c) && hex_value(c) == c as int - 'a' as int + 10,
        'A' <= c <= 'F' ==> is_hex(c) && hex_value(c) == c as int - 'A' as int + 10,
        is_hex(c) ==> 0 <= hex_value(c) < 16,
        is_hex(c) == (('0' <= c <= '9') || ('a' <= c <= 'f') || ('A' <= c <= 'F')),
{
}

/// Each byte of a line adds its two digits, and a blank behind them where a group ends within
/// the line.
pub proof fn law_bytes_stand_in_groups(o: Options, data: Seq<u8>, b: u8)
    ensures
        o.grouped_from(Seq::empty(), 0).len() == 0,
        o.grouped_from(data.push(b), 0) == o.grouped_from(data, 0) + hex2(b, o.uppercase) + (if
        o.group > 0 && (data.len() + 1) % (o.group as nat) == 0 && data.len() + 1 < o.cols {
            seq![' ']
        } else {
            Seq::empty()
        }),
{
    lemma_group_grows(o, data, b, 0);
}

proof fn lemma_group_grows(o: Options, data: Seq<u8>, b: u8, i: int)
    requires
        0 <= i <= data.len(),
    ensures
        o.grouped_from(data.push(b), i) == o.grouped_from(data, i) + hex2(b, o.uppercase) + (if
        o.gap_after(data.len() as int) {
            seq![' ']
        } else {
            Seq::empty()
        }),
    decreases data.len() - i,
{
    let all = data.push(b);
    let gap = if o.gap_after(data.len() as int) {
        seq![' ']
    } else {
        Seq::<char>::empty()
    };
    if i < data.len() {
        assert(all[i] == data[i]);
        lemma_group_grows(o, data, b, i + 1);
        assert(o.grouped_from(all, i) =~= o.grouped_from(data, i) + hex2(b, o.uppercase) + gap);
    } else {
        assert(all[i] == b);
        assert(o.grouped_from(all, i + 1) =~= Seq::<char>::empty());
        assert(o.grouped_from(all, i) =~= o.grouped_from(data, i) + hex2(b, o.uppercase) + gap);
    }
}

/// A plain dump adds two digits for each byte, and one for an include file a number behind a
/// comma.
pub proof fn law_bytes_stand_in_a_row(data: Seq<u8>, upper: bool, b: u8)
    ensures
        plain_from(data.push(b), upper, 0) == plain_from(data, upper, 0) + hex2(b, upper),
        c_from(seq![b], upper, 0) == "0x"@ + hex2(b, upper),
        data.len() > 0 ==> c_from(data.push(b), upper, 0) == c_from(data, upper, 0) + ", 0x"@
            + hex2(b, upper),
{
    lemma_rows_grow(data, upper, b, 0);
    let one = seq![b];
    reveal_with_fuel(c_from, 2);
    assert(one[0] == b);
    assert(c_from(one, upper, 1) =~= Seq::<char>::empty());
    assert(c_from(one, upper, 0) =~= "0x"@ + hex2(b, upper));
    reveal_strlit(", ");
    reveal_strlit("0x");
    reveal_strlit(", 0x");
    assert(", 0x"@ =~= ", "@ + "0x"@);
    if data.len() > 0 {
        assert(c_from(data, upper, 0) + (", "@ + "0x"@ + hex2(b, upper)) =~= c_from(data, upper, 0)
            + ", 0x"@ + hex2(b, upper));
    }
}

proof fn lemma_rows_grow(data: Seq<u8>, upper: bool, b: u8, i: int)
    requires
        0 <= i <= data.len(),
    ensures
        plain_from(data.push(b), upper, i) == plain_from(data, upper, i) + hex2(b, upper),
        data.len() > 0 ==> c_from(data.push(b), upper, i) == c_from(data, upper, i) + (", "@
            + "0x"@ + hex2(b, upper)),
    decreases data.len() - i,
{
    let all = data.push(b);
    reveal_with_fuel(plain_from, 2);
    reveal_with_fuel(c_from, 2);
    if i < data.len() {
        assert(all[i] == data[i]);
        lemma_rows_grow(data, upper, b, i + 1);
        assert(plain_from(all, upper, i) =~= plain_from(data, upper, i) + hex2(b, upper));
        assert(c_from(all, upper, i) =~= c_from(data, upper, i) + (", "@ + "0x"@ + hex2(b, upper)));
    } else {
        assert(all[i] == b);
        assert(plain_from(all, upper, i) =~= plain_from(data, upper, i) + hex2(b, upper));
        if data.len() > 0 {
            assert(c_from(all, upper, i) =~= c_from(data, upper, i) + (", "@ + "0x"@ + hex2(
                b,
                upper,
            )));
        }
    }
}

/// A line of a dump is made up of the address, to eight hex digits, the bytes in hex and
/// the bytes as characters, with a point for each that cannot be shown.
pub proof fn law_parts_of_a_line(o: Options, data: Seq<u8>, offset: nat, k: int)
    requires
        !o.plain && !o.c_include,
        0 <= k < data.len(),
    ensures
        ({
            let line = o.dump_line(data, offset);
            let n = line.len() - 1;
            &&& starts_with(line, zero_pad(digits(offset, 16, false), 8) + ": "@)
            &&& line[n] == '\n'
            &&& 0x20 <= data[k] <= 0x7e ==> line[n - data.len() + k] == data[k] as char
            &&& data[k] < 0x20 || data[k] > 0x7e ==> line[n - data.len() + k] == '.'
            &&& line[n - data.len() - 1] == ' ' && line[n - data.len() - 2] == ' '
        }),
{
    let line = o.dump_line(data, offset);
    let front = zero_pad(digits(offset, 16, false), 8) + ": "@;
    let hex = pad_right(o.grouped_from(data, 0), o.hex_width());
    let text = data.map_values(|b: u8| shown(b));
    reveal_strlit("  ");
    assert(line =~= front + hex + "  "@ + text + seq!['\n']);
    assert(line.take(front.len() as int) =~= front);
    assert(text[k] == shown(data[k]));
}

/// A name in an include file is the last name of the path, with an underscore for each
/// character that is no letter or digit, and one before a digit at its start.
pub proof fn law_names_in_include_files(name: Seq<char>, k: int)
    requires
        0 <= k < name.len(),
        forall|j: int| 0 <= j < name.len() ==> #[trigger] name[j] != '/',
    ensures
        is_digit(name[0]) ==> c_name(name).len() == name.len() + 1 && c_name(name)[0] == '_'
            && c_name(name)[k + 1] == if is_alnum(name[k]) {
            name[k]
        } else {
            '_'
        },
        !is_digit(name[0]) ==> c_name(name).len() == name.len() && c_name(name)[k] == if is_alnum(
            name[k],
        ) {
            name[k]
        } else {
            '_'
        },
{
    crate::text::law_basename_is_behind_the_last_slash(Seq::empty(), name);
}

/// The bytes of a full line take up the width that shorter lines are brought to.
pub proof fn law_lines_are_as_wide(o: Options, data: Seq<u8>)
    requires
        1 <= o.cols,
        data.len() == o.cols,
    ensures
        o.grouped_from(data, 0).len() == o.hex_width(),
{
    lemma_grouped_len(o, data, 0);
}

/// How many blanks stand behind the first `n` bytes of a line.
spec fn gaps_before(o: Options, n: int) -> int {
    if o.group == 0 {
        0
    } else if n < o.cols {
        n / o.group as int
    } else {
        (o.cols - 1) / o.group as int
    }
}

proof fn lemma_grouped_len(o: Options, data: Seq<u8>, i: int)
    requires
        1 <= o.cols,
        data.len() == o.cols,
        0 <= i <= data.len(),
    ensures
        o.grouped_from(data, i).len() == 2 * (data.len() - i) + gaps_before(
            o,
            data.len() as int,
        ) - gaps_before(o, i),
    decreases data.len() - i,
{
    if i < data.len() {
        lemma_grouped_len(o, data, i + 1);
        if o.group > 0 {
            let g = o.group as int;
            assert((i + 1) / g == i / g + if (i + 1) % g == 0 {
                1int
            } else {
                0
            }) by {
                lemma_next_quotient(i, g);
            }
        }
    }
}

proof fn lemma_next_quotient(i: int, g: int)
    requires
        0 <= i,
        0 < g,
    ensures
        (i + 1) / g == i / g + if (i + 1) % g == 0 {
            1int
        } else {
            0
        },
{
    let q = i / g;
    let r = i % g;
    vstd::arithmetic::div_mod::lemma_fundamental_div_mod(i, g);
    vstd::arithmetic::div_mod::lemma_mod_bound(i, g);
    if r + 1 == g {
        assert(i + 1 == (q + 1) * g + 0) by (nonlinear_arith)
            requires
                i == g * q + r,
                r + 1 == g,
        ;
        vstd::arithmetic::div_mod::lemma_fundamental_div_mod_converse(i + 1, g, q + 1, 0);
    } else {
        assert(i + 1 == q * g + (r + 1)) by (nonlinear_arith)
            requires
                i == g * q + r,
        ;
        vstd::arithmetic::div_mod::lemma_fundamental_div_mod_converse(i + 1, g, q, r + 1);
    }
}

/// A dump shows so many bytes as are asked for at most, in lines of sixteen bytes and groups of
/// two where nothing else is asked for.
pub proof fn law_options_of_xxd(o: Options, n: usize)
    ensures
        o.follows(Seq::empty()) ==> o.cols == 16 && o.group == 2 && !o.uppercase && !o.plain
            && !o.c_include && !o.reverse && o.length is None && o.seek == 0,
        o.follows(seq![Tok::Valued('c', Some(decimal(n as nat)))]) && n > 0 ==> o.cols == n
            && o.group == 2 && o.length is None && o.seek == 0,
        o.follows(seq![Tok::Valued('g', Some(decimal(n as nat)))]) ==> o.group == n && o.cols == 16,
        o.follows(seq![Tok::Valued('l', Some(decimal(n as nat)))]) ==> o.length == Some(n)
            && o.cols == 16,
        o.follows(seq![Tok::Valued('s', Some(decimal(n as nat)))]) ==> o.seek == n && o.cols == 16,
{
    crate::num::law_decimal_is_read(n as nat, 'x', Seq::empty());
    reveal_with_fuel(last_number, 2);
    let none = Seq::<Tok>::empty();
    assert(!none.contains(Tok::Short('u')) && !none.contains(Tok::Short('p')));
    assert(!none.contains(Tok::Short('i')) && !none.contains(Tok::Short('r')));
}

/// What the options of xxd without a value mean, each alone.
pub proof fn law_flags_of_xxd(o: Options, c: char)
    requires
        o.follows(seq![Tok::Short(c)]),
    ensures
        o.uppercase == (c == 'u'),
        o.plain == (c == 'p'),
        o.c_include == (c == 'i'),
        o.reverse == (c == 'r'),
{
    let ts = seq![Tok::Short(c)];
    assert(ts[0] == Tok::Short(c));
    assert(ts.contains(Tok::Short(c)));
}

/// `-c`, `-g`, `-l` and `-s` take a value and no other option does; the first argument is the
/// name of the command.
pub proof fn law_options_with_values(name: Seq<char>, args: Seq<Seq<char>>)
    ensures
        xxd_tokens(seq![name] + args) == crate::args::tokens(args, seq!['c', 'g', 'l', 's'], false),
        xxd_tokens(Seq::empty()).len() == 0,
{
    assert((seq![name] + args).skip(1) =~= args);
}

/// Help is asked for by `-h` or by `--help`, and by nothing else.
pub proof fn law_help_is_asked_for(t: Tok)
    ensures
        wants_help(seq![t]) == (t == Tok::Short('h') || t == Tok::Long("help"@)),
        !wants_help(Seq::empty()),
{
    let ts = seq![t];
    assert(ts[0] == t);
    assert(ts.contains(t));
}

} // verus!
