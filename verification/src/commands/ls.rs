//! ls - list directory contents
use vstd::prelude::*;
use vstd::string::StringExecFns;
use crate::args::{arg_tokens, has_short, lex_args, toks, values, values_from, Tok};
use crate::commands::Said;
use crate::context::CmdContext;
use crate::fs::{DirEntry, Node};
use crate::list::strings_of;
use crate::num::{decimal, law_one_digit, write_decimal};
use crate::order::{law_sorted, sort_strings, sorted};
use crate::path::{child, child_path};
use crate::round::{
    law_small_numbers_stay, law_whole_is_nearest, nearest, nearest_of, round53, rounded,
};
use crate::text::{
    basename, join, join_strings, last_part, lemma_strs_push, pad_left, padded_left, strs, to_chars,
};

verus! {

/// What ls was asked for.
#[derive(Debug, Clone, Copy, PartialEq, Eq, Structural)]
pub struct LsOptions {
    pub long_format: bool,
    pub show_all: bool,
    pub one_per_line: bool,
    pub human_readable: bool,
}

// ---------------------------------------------------------------------------
// Sizes
// ---------------------------------------------------------------------------

/// The unit that a size is shown in, counted from zero in steps of 1024, from `k`
/// on: `unit` is the number of bytes of unit `k`.
pub open spec fn unit_from(v: nat, unit: nat, k: nat) -> (nat, nat)
    decreases 4 - k,
{
    if k >= 4 || v < 1024 * unit {
        (unit, k)
    } else {
        unit_from(v, 1024 * unit, k + 1)
    }
}

pub open spec fn unit_letter(k: nat) -> char {
    if k == 0 {
        'B'
    } else if k == 1 {
        'K'
    } else if k == 2 {
        'M'
    } else if k == 3 {
        'G'
    } else {
        'T'
    }
}

/// A size in bytes, or with one decimal place in the largest unit that it fills.
pub open spec fn human(size: u64) -> Seq<char> {
    let v = rounded(size as nat);
    let (unit, k) = unit_from(v, 1, 0);
    if k == 0 {
        pad_left(decimal(size as nat), 4).push('B')
    } else {
        let tenths = nearest(v * 10, unit);
        pad_left(decimal(tenths / 10) + seq!['.'] + decimal(tenths % 10), 4).push(unit_letter(k))
    }
}

/// Writes a size in bytes, or with one decimal place in the largest unit that it
/// fills.
pub fn format_human_size(size: u64) -> (r: String)
    ensures
        r@ == human(size),
{
    let v = round53(size as u128);
    let mut unit: u128 = 1;
    let mut k: u8 = 0;
    while k < 4 && v >= 1024 * unit
        invariant
            v < 0x2_0000_0000_0000_0000,
            k <= 4,
            k == 0 ==> unit == 1,
            k == 1 ==> unit == 0x400,
            k == 2 ==> unit == 0x10_0000,
            k == 3 ==> unit == 0x4000_0000,
            k == 4 ==> unit == 0x100_0000_0000,
            unit_from(v as nat, unit as nat, k as nat) == unit_from(v as nat, 1, 0),
        decreases 4 - k,
    {
        unit = 1024 * unit;
        k = k + 1;
    }
    let mut text: Vec<char>;
    let letter;
    if k == 0 {
        text = write_decimal(size);
        letter = 'B';
    } else {
        let t = nearest_of(v * 10, unit);
        proof {
            lemma_tenths_fit(v as nat, unit as nat);
        }
        text = write_decimal((t / 10) as u64);
        text.push('.');
        let mut tail = write_decimal((t % 10) as u64);
        text.append(&mut tail);
        proof {
            assert(text@ =~= decimal((t / 10) as nat) + seq!['.'] + decimal((t % 10) as nat));
        }
        letter = if k == 1 {
            'K'
        } else if k == 2 {
            'M'
        } else if k == 3 {
            'G'
        } else {
            'T'
        };
    }
    let mut r = padded_left(&text, 4);
    r.push(letter);
    r
}

proof fn lemma_tenths_fit(v: nat, unit: nat)
    requires
        unit >= 0x400,
        v < 0x2_0000_0000_0000_0000,
    ensures
        nearest(v * 10, unit) / 10 < 0x1_0000_0000_0000_0000,
{
    let a = v * 10;
    let q = a / unit;
    assert(q <= a / 0x400) by (nonlinear_arith)
        requires
            q == a / unit,
            unit >= 0x400,
            a >= 0,
    ;
}

// ---------------------------------------------------------------------------
// Lines
// ---------------------------------------------------------------------------

impl LsOptions {
    /// The line of a path in long format.
    pub open spec fn long_line(self, ctx: CmdContext, path: Seq<char>, name: Seq<char>) -> Seq<char> {
        let size = match ctx.size_of(path) {
            Some(n) => n,
            None => 0,
        };
        (if ctx.shows_dir(path) {
            "drwxr-xr-x"@
        } else {
            "-rw-r--r--"@
        }) + " 1 user user "@ + (if self.human_readable {
            human(size as u64)
        } else {
            pad_left(decimal(size), 8)
        }) + " Jan  1 00:00 "@ + name
    }

    /// The lines of some names of a directory from `i` on in long format.
    pub open spec fn long_from(
        self,
        ctx: CmdContext,
        dir: Seq<char>,
        names: Seq<Seq<char>>,
        i: int,
    ) -> Seq<char>
        decreases names.len() - i,
    {
        if i < 0 || i >= names.len() {
            Seq::empty()
        } else {
            self.long_line(ctx, child(dir, names[i]), names[i]) + seq!['\n'] + self.long_from(
                ctx,
                dir,
                names,
                i + 1,
            )
        }
    }

    /// The names of a directory that are listed.
    pub open spec fn visible_from(self, entries: Seq<DirEntry>, i: int) -> Seq<Seq<char>>
        decreases entries.len() - i,
    {
        if i < 0 || i >= entries.len() {
            Seq::empty()
        } else if self.show_all || !(entries[i].name@.len() > 0 && entries[i].name@[0] == '.') {
            seq![entries[i].name@] + self.visible_from(entries, i + 1)
        } else {
            self.visible_from(entries, i + 1)
        }
    }

    /// The listing of a directory.
    pub open spec fn dir_text(self, ctx: CmdContext, dir: Seq<char>, entries: Seq<DirEntry>) -> Seq<
        char,
    > {
        let names = sorted(self.visible_from(entries, 0));
        if self.long_format {
            self.long_from(ctx, dir, names, 0)
        } else if self.one_per_line {
            lines_from(names, 0)
        } else {
            let text = join(names, "  "@);
            if text.len() == 0 {
                Seq::empty()
            } else {
                text + seq!['\n']
            }
        }
    }

    /// What is printed for one of the paths: its listing, or a complaint and an exit
    /// code that end the command.
    pub open spec fn path_text(self, ctx: CmdContext, arg: Seq<char>) -> std::result::Result<
        Seq<char>,
        (Seq<char>, int),
    > {
        let path = ctx.absolute(arg);
        if !ctx.has(path) {
            Err(("ls: cannot access '"@ + arg + "': No such file or directory\n"@, 2))
        } else if ctx.has_file(path) {
            Ok(
                (if self.long_format {
                    self.long_line(ctx, path, basename(arg))
                } else {
                    basename(arg)
                }) + seq!['\n'],
            )
        } else {
            match ctx.fs.node(ctx.absolute(path)) {
                Some(Node::Dir(entries)) => Ok(self.dir_text(ctx, path, entries@)),
                Some(Node::Closed(_, m)) => Err(
                    ("ls: cannot open directory '"@ + arg + "': "@ + m@ + "\n"@, 1),
                ),
                _ => Ok(Seq::empty()),
            }
        }
    }

    /// What is printed for the paths from `i` on: the listings, the complaint that
    /// ends them, and the exit code.
    pub open spec fn all_from(
        self,
        ctx: CmdContext,
        paths: Seq<Seq<char>>,
        i: int,
    ) -> (Seq<char>, Seq<char>, int)
        decreases paths.len() - i,
    {
        if i < 0 || i >= paths.len() {
            (Seq::empty(), Seq::empty(), 0)
        } else {
            let head = if paths.len() > 1 {
                (if i > 0 {
                    seq!['\n']
                } else {
                    Seq::empty()
                }) + paths[i] + ":\n"@
            } else {
                Seq::empty()
            };
            match self.path_text(ctx, paths[i]) {
                Ok(text) => {
                    let (out, err, code) = self.all_from(ctx, paths, i + 1);
                    (head + text + out, err, code)
                },
                Err((err, code)) => (head, err, code),
            }
        }
    }
}

/// Texts from `i` on, one on each line.
pub open spec fn lines_from(names: Seq<Seq<char>>, i: int) -> Seq<char>
    decreases names.len() - i,
{
    if i < 0 || i >= names.len() {
        Seq::empty()
    } else {
        names[i] + seq!['\n'] + lines_from(names, i + 1)
    }
}

impl CmdContext {
    /// Whether a path is shown as a directory: the host's files never are.
    pub open spec fn shows_dir(self, path: Seq<char>) -> bool {
        self.fs.mount(self.absolute(path)) is None && self.has_dir(path)
    }
}

fn format_long_entry(ctx: &CmdContext, path: &str, name: &str, o: &LsOptions) -> (r: String)
    ensures
        r@ == o.long_line(*ctx, path@, name@),
{
    let (is_dir, size) = match ctx.stat(path) {
        Ok(s) => (s.is_dir, s.size),
        Err(_) => (false, 0),
    };
    let mut r = if is_dir {
        "drwxr-xr-x".to_owned()
    } else {
        "-rw-r--r--".to_owned()
    };
    r.append(" 1 user user ");
    let size_text = if o.human_readable {
        format_human_size(size)
    } else {
        let ds = write_decimal(size);
        padded_left(&ds, 8)
    };
    r.append(size_text.as_str());
    r.append(" Jan  1 00:00 ");
    r.append(name);
    r
}

fn list_entries(ctx: &CmdContext, dir: &str, entries: &Vec<DirEntry>, o: &LsOptions) -> (r: String)
    ensures
        r@ == o.dir_text(*ctx, dir@, entries@),
{
    let mut shown: Vec<String> = Vec::new();
    let mut i: usize = 0;
    proof {
        assert(strs(shown@) + o.visible_from(entries@, 0) =~= o.visible_from(entries@, 0));
    }
    while i < entries.len()
        invariant
            i <= entries@.len(),
            strs(shown@) + o.visible_from(entries@, i as int) == o.visible_from(entries@, 0),
        decreases entries@.len() - i,
    {
        let cs = to_chars(entries[i].name.as_str());
        if o.show_all || !(cs.len() > 0 && cs[0] == '.') {
            let ghost before = shown@;
            let name = entries[i].name.clone();
            shown.push(name);
            proof {
                lemma_strs_push(before, name);
                assert(strs(shown@) + o.visible_from(entries@, i + 1) =~= strs(before)
                    + o.visible_from(entries@, i as int));
            }
        }
        i += 1;
    }
    proof {
        assert(strs(shown@) =~= o.visible_from(entries@, 0));
    }
    let names = sort_strings(&shown);
    let ghost all = strs(names@);
    let mut out = String::new();
    if o.long_format {
        let mut i: usize = 0;
        proof {
            assert(out@ + o.long_from(*ctx, dir@, all, 0) =~= o.long_from(*ctx, dir@, all, 0));
        }
        while i < names.len()
            invariant
                all == strs(names@),
                i <= names@.len(),
                out@ + o.long_from(*ctx, dir@, all, i as int) == o.long_from(*ctx, dir@, all, 0),
            decreases names@.len() - i,
        {
            let ghost before = out@;
            proof {
                assert(all[i as int] == names@[i as int]@);
            }
            let path = child_path(dir, names[i].as_str());
            let line = format_long_entry(ctx, path.as_str(), names[i].as_str(), o);
            out.append(line.as_str());
            out.push('\n');
            proof {
                let rest = o.long_from(*ctx, dir@, all, i + 1);
                assert(out@ =~= before + (line@ + seq!['\n']));
                assert(before + (line@ + seq!['\n']) + rest =~= before + (line@ + seq!['\n']
                    + rest));
            }
            i += 1;
        }
        proof {
            assert(out@ =~= o.long_from(*ctx, dir@, all, 0));
        }
    } else if o.one_per_line {
        let mut i: usize = 0;
        proof {
            assert(out@ + lines_from(all, 0) =~= lines_from(all, 0));
        }
        while i < names.len()
            invariant
                all == strs(names@),
                i <= names@.len(),
                out@ + lines_from(all, i as int) == lines_from(all, 0),
            decreases names@.len() - i,
        {
            let ghost before = out@;
            out.append(names[i].as_str());
            out.push('\n');
            proof {
                assert(all[i as int] == names@[i as int]@);
                assert(out@ + lines_from(all, i + 1) =~= before + lines_from(all, i as int));
            }
            i += 1;
        }
        proof {
            assert(out@ =~= lines_from(all, 0));
        }
    } else {
        proof {
            assert(all.skip(0) =~= all);
        }
        let text = join_strings(&names, 0, "  ");
        let cs = to_chars(text.as_str());
        if cs.len() > 0 {
            out = text;
            let ghost before = out@;
            out.push('\n');
            proof {
                assert(out@ =~= before + seq!['\n']);
            }
        }
    }
    out
}

fn list_path(ctx: &CmdContext, arg: &str, o: &LsOptions) -> (r: std::result::Result<
    String,
    (String, i32),
>)
    ensures
        match (r, o.path_text(*ctx, arg@)) {
            (Ok(s), Ok(text)) => s@ == text,
            (Err((s, c)), Err((text, code))) => s@ == text && c == code,
            _ => false,
        },
{
    let path = ctx.resolve_path(arg);
    if !ctx.path_exists(path.as_str()) {
        let mut m = "ls: cannot access '".to_owned();
        m.append(arg);
        m.append("': No such file or directory\n");
        return Err((m, 2));
    }
    if ctx.is_file(path.as_str()) {
        let name = last_part(arg);
        let mut line = if o.long_format {
            format_long_entry(ctx, path.as_str(), name.as_str(), o)
        } else {
            name
        };
        let ghost before = line@;
        line.push('\n');
        proof {
            assert(line@ =~= before + seq!['\n']);
        }
        return Ok(line);
    }
    match ctx.list_dir(path.as_str()) {
        Ok(entries) => Ok(list_entries(ctx, path.as_str(), entries, o)),
        Err(e) => {
            let mut m = "ls: cannot open directory '".to_owned();
            m.append(arg);
            m.append("': ");
            let text = e.message();
            m.append(text.as_str());
            m.append("\n");
            Err((m, 1))
        },
    }
}

/// What ls finds in its arguments.
pub open spec fn ls_tokens(argv: Seq<Seq<char>>) -> Seq<Tok> {
    arg_tokens(argv, Seq::empty(), false)
}

/// The options that the tokens give.
pub open spec fn ls_options(ts: Seq<Tok>) -> LsOptions {
    LsOptions {
        long_format: ts.contains(Tok::Short('l')),
        show_all: ts.contains(Tok::Short('a')),
        one_per_line: ts.contains(Tok::Short('1')),
        human_readable: ts.contains(Tok::Short('h')),
    }
}

/// The paths to list: the current directory where none is given.
pub open spec fn ls_paths(ts: Seq<Tok>) -> Seq<Seq<char>> {
    if values_from(ts, 0).len() == 0 {
        seq!["."@]
    } else {
        values_from(ts, 0)
    }
}

/// Runs ls.
pub fn run(ctx: &CmdContext) -> (r: Said)
    ensures
        ({
            let ts = ls_tokens(strs(ctx.argv@));
            let (out, err, code) = ls_options(ts).all_from(*ctx, ls_paths(ts), 0);
            r.says(out, err, code)
        }),
{
    let none: Vec<char> = Vec::new();
    proof {
        assert(none@ =~= Seq::<char>::empty());
    }
    let ts = lex_args(&ctx.argv, &none, false);
    let o = LsOptions {
        long_format: has_short(&ts, 'l'),
        show_all: has_short(&ts, 'a'),
        one_per_line: has_short(&ts, '1'),
        human_readable: has_short(&ts, 'h'),
    };
    let mut paths = values(&ts);
    if paths.len() == 0 {
        paths.push(".".to_owned());
        proof {
            assert(strings_of(paths) =~= seq!["."@]);
        }
    }
    let ghost all = strings_of(paths);
    let ghost whole = o.all_from(*ctx, all, 0);
    let n = paths.len();
    let mut out = String::new();
    let mut i: usize = 0;
    proof {
        assert(out@ + whole.0 =~= whole.0);
    }
    while i < n
        invariant
            n == all.len(),
            all == strings_of(paths),
            i <= n,
            whole == o.all_from(*ctx, all, 0),
            whole == ls_options(toks(ts@)).all_from(*ctx, ls_paths(toks(ts@)), 0),
            toks(ts@) == ls_tokens(strs(ctx.argv@)),
            out@ + o.all_from(*ctx, all, i as int).0 == whole.0,
            o.all_from(*ctx, all, i as int).1 == whole.1,
            o.all_from(*ctx, all, i as int).2 == whole.2,
        decreases n - i,
    {
        let ghost before = out@;
        let arg = paths.at(i);
        if n > 1 {
            if i > 0 {
                out.push('\n');
            }
            out.append(arg);
            out.append(":\n");
        }
        let ghost head = if all.len() > 1 {
            (if i > 0 {
                seq!['\n']
            } else {
                Seq::empty()
            }) + all[i as int] + ":\n"@
        } else {
            Seq::empty()
        };
        proof {
            assert(out@ =~= before + head);
        }
        match list_path(ctx, arg, &o) {
            Ok(text) => {
                out.append(text.as_str());
                proof {
                    let rest = o.all_from(*ctx, all, i + 1).0;
                    assert(before + head + text@ + rest =~= before + (head + text@ + rest));
                }
            },
            Err((err, code)) => {
                return Said { out, err, code };
            },
        }
        i += 1;
    }
    proof {
        assert(out@ =~= whole.0);
    }
    Said { out, err: String::new(), code: 0 }
}

/// Without `-a`, no name that starts with a point is listed; with it, every name is.
pub proof fn law_hidden_names(o: LsOptions, entries: Seq<DirEntry>, name: Seq<char>)
    ensures
        o.visible_from(entries, 0).contains(name) == ((o.show_all || !(name.len() > 0 && name[0]
            == '.')) && exists|k: int| 0 <= k < entries.len() && (#[trigger] entries[k]).name@ == name),
{
    lemma_visible(o, entries, name, 0);
}

proof fn lemma_visible(o: LsOptions, entries: Seq<DirEntry>, name: Seq<char>, i: int)
    requires
        0 <= i <= entries.len(),
    ensures
        o.visible_from(entries, i).contains(name) == ((o.show_all || !(name.len() > 0 && name[0]
            == '.')) && exists|k: int| i <= k < entries.len() && (#[trigger] entries[k]).name@ == name),
    decreases entries.len() - i,
{
    if i < entries.len() {
        lemma_visible(o, entries, name, i + 1);
        let rest = o.visible_from(entries, i + 1);
        let all = o.visible_from(entries, i);
        let own = entries[i].name@;
        if all != rest || own == name {
            if o.show_all || !(own.len() > 0 && own[0] == '.') {
                assert(all == seq![own] + rest);
                assert(all[0] == own);
                if rest.contains(name) {
                    let k = choose|k: int| 0 <= k < rest.len() && rest[k] == name;
                    assert(all[k + 1] == name);
                }
                if all.contains(name) && own != name {
                    let k = choose|k: int| 0 <= k < all.len() && all[k] == name;
                    assert(rest[k - 1] == name);
                }
            }
        }
    }
}

/// A size is shown in the largest unit, each a thousand and twenty-four times the one before,
/// that it reaches.
pub proof fn law_units_of_a_size(v: nat)
    ensures
        v < 1024 ==> unit_from(v, 1, 0) == (1nat, 0nat),
        1024 <= v < 1048576 ==> unit_from(v, 1, 0) == (1024nat, 1nat),
        1048576 <= v < 1073741824 ==> unit_from(v, 1, 0) == (1048576nat, 2nat),
        1073741824 <= v < 1099511627776 ==> unit_from(v, 1, 0) == (1073741824nat, 3nat),
        1099511627776 <= v ==> unit_from(v, 1, 0) == (1099511627776nat, 4nat),
        unit_letter(0) == 'B' && unit_letter(1) == 'K' && unit_letter(2) == 'M' && unit_letter(3)
            == 'G' && unit_letter(4) == 'T',
{
    reveal_with_fuel(unit_from, 5);
}

/// A size below a thousand and twenty-four is shown in bytes, and a whole number of a larger
/// unit with a zero behind the point.
pub proof fn law_sizes_for_reading(n: u64)
    ensures
        n < 1024 ==> human(n) == pad_left(decimal(n as nat), 4) + seq!['B'],
        1 <= n < 1024 ==> human((n * 1024) as u64) == pad_left(
            decimal(n as nat) + seq!['.', '0'],
            4,
        ) + seq!['K'],
        1 <= n < 1024 ==> human((n * 1048576) as u64) == pad_left(
            decimal(n as nat) + seq!['.', '0'],
            4,
        ) + seq!['M'],
        1 <= n < 1024 ==> human((n * 1073741824) as u64) == pad_left(
            decimal(n as nat) + seq!['.', '0'],
            4,
        ) + seq!['G'],
        1 <= n < 4096 ==> human((n * 1099511627776) as u64) == pad_left(
            decimal(n as nat) + seq!['.', '0'],
            4,
        ) + seq!['T'],
{
    if n < 1024 {
        law_small_numbers_stay(n as nat);
        law_units_of_a_size(n as nat);
        assert(human(n) =~= pad_left(decimal(n as nat), 4) + seq!['B']);
    }
    if 1 <= n < 1024 {
        lemma_whole_unit(n, 1024, 1);
        lemma_whole_unit(n, 1048576, 2);
        lemma_whole_unit(n, 1073741824, 3);
    }
    if 1 <= n < 4096 {
        lemma_whole_unit(n, 1099511627776, 4);
    }
}

proof fn lemma_whole_unit(n: u64, unit: nat, k: nat)
    requires
        1 <= n,
        k == 4 ==> n < 4096,
        k < 4 ==> n < 1024,
        (k == 1 && unit == 1024) || (k == 2 && unit == 1048576) || (k == 3 && unit == 1073741824)
            || (k == 4 && unit == 1099511627776),
    ensures
        n * unit <= u64::MAX,
        human((n * unit) as u64) == pad_left(decimal(n as nat) + seq!['.', '0'], 4) + seq![
            unit_letter(k),
        ],
{
    let v = (n * unit) as nat;
    if k == 1 {
        assert(v == n * 1024);
    } else if k == 2 {
        assert(v == n * 1048576);
    } else if k == 3 {
        assert(v == n * 1073741824);
    } else {
        assert(v == n * 1099511627776);
    }
    assert(v < 0x20_0000_0000_0000);
    law_small_numbers_stay(v);
    law_units_of_a_size(v);
    assert(v * 10 == (n * 10) as nat * unit) by (nonlinear_arith)
        requires
            v == n * unit,
    ;
    law_whole_is_nearest((n * 10) as nat, unit);
    assert((n * 10) / 10 == n && (n * 10) % 10 == 0);
    law_one_digit(0);
    assert(seq!['.'] + decimal(0) =~= seq!['.', '0']);
    assert(decimal(n as nat) + seq!['.'] + decimal(0) =~= decimal(n as nat) + seq!['.', '0']);
    assert(human(v as u64) =~= pad_left(decimal(n as nat) + seq!['.', '0'], 4) + seq![
        unit_letter(k),
    ]);
}

/// The long form of a line: the kind of the path, the owners, the size, the time and the name.
pub proof fn law_long_lines(o: LsOptions, ctx: CmdContext, path: Seq<char>, name: Seq<char>, n: nat)
    ensures
        !o.human_readable && ctx.shows_dir(path) && ctx.size_of(path) == Some(n) ==> o.long_line(
            ctx,
            path,
            name,
        ) == "drwxr-xr-x 1 user user "@ + pad_left(decimal(n), 8) + " Jan  1 00:00 "@ + name,
        !o.human_readable && !ctx.shows_dir(path) && ctx.size_of(path) == Some(n) ==> o.long_line(
            ctx,
            path,
            name,
        ) == "-rw-r--r-- 1 user user "@ + pad_left(decimal(n), 8) + " Jan  1 00:00 "@ + name,
        o.human_readable && !ctx.shows_dir(path) && ctx.size_of(path) == Some(n) && n <= u64::MAX
            ==> o.long_line(ctx, path, name) == "-rw-r--r-- 1 user user "@ + human(n as u64)
            + " Jan  1 00:00 "@ + name,
{
    reveal_strlit("drwxr-xr-x");
    reveal_strlit("-rw-r--r--");
    reveal_strlit(" 1 user user ");
    reveal_strlit("drwxr-xr-x 1 user user ");
    reveal_strlit("-rw-r--r-- 1 user user ");
    assert("drwxr-xr-x"@ + " 1 user user "@ =~= "drwxr-xr-x 1 user user "@);
    assert("-rw-r--r--"@ + " 1 user user "@ =~= "-rw-r--r-- 1 user user "@);
}

/// A directory is shown by the names in it in the order of their characters: in the long form
/// or one to a line where that is asked for, and otherwise on one line with blanks between.
pub proof fn law_directories_are_shown_in_order(
    o: LsOptions,
    ctx: CmdContext,
    dir: Seq<char>,
    entries: Seq<DirEntry>,
) -> (names: Seq<Seq<char>>)
    ensures
        forall|i: int, j: int|
            0 <= i < j < names.len() ==> crate::text::lex_le(
                #[trigger] names[i],
                #[trigger] names[j],
            ),
        names.to_multiset() == o.visible_from(entries, 0).to_multiset(),
        o.long_format ==> o.dir_text(ctx, dir, entries) == o.long_from(ctx, dir, names, 0),
        !o.long_format && o.one_per_line ==> o.dir_text(ctx, dir, entries) == lines_from(names, 0),
        !o.long_format && !o.one_per_line && join(names, seq![' ', ' ']).len() > 0 ==> o.dir_text(
            ctx,
            dir,
            entries,
        ) == join(names, seq![' ', ' ']) + seq!['\n'],
        !o.long_format && !o.one_per_line && join(names, seq![' ', ' ']).len() == 0 ==> o.dir_text(
            ctx,
            dir,
            entries,
        ).len() == 0,
{
    reveal_strlit("  ");
    assert("  "@ =~= seq![' ', ' ']);
    let names = sorted(o.visible_from(entries, 0));
    law_sorted(o.visible_from(entries, 0));
    names
}

/// Each name adds its line.
pub proof fn law_each_name_adds_a_line(
    o: LsOptions,
    ctx: CmdContext,
    dir: Seq<char>,
    names: Seq<Seq<char>>,
    last: Seq<char>,
)
    ensures
        lines_from(names.push(last), 0) == lines_from(names, 0) + last + seq!['\n'],
        o.long_from(ctx, dir, names.push(last), 0) == o.long_from(ctx, dir, names, 0)
            + o.long_line(ctx, child(dir, last), last) + seq!['\n'],
{
    lemma_lines_grow(o, ctx, dir, names, last, 0);
}

proof fn lemma_lines_grow(
    o: LsOptions,
    ctx: CmdContext,
    dir: Seq<char>,
    names: Seq<Seq<char>>,
    last: Seq<char>,
    i: int,
)
    requires
        0 <= i <= names.len(),
    ensures
        lines_from(names.push(last), i) == lines_from(names, i) + last + seq!['\n'],
        o.long_from(ctx, dir, names.push(last), i) == o.long_from(ctx, dir, names, i)
            + o.long_line(ctx, child(dir, last), last) + seq!['\n'],
    decreases names.len() - i,
{
    let all = names.push(last);
    reveal_with_fuel(lines_from, 2);
    reveal_with_fuel(LsOptions::long_from, 2);
    if i < names.len() {
        assert(all[i] == names[i]);
        lemma_lines_grow(o, ctx, dir, names, last, i + 1);
    } else {
        assert(all[i] == last);
    }
    assert(lines_from(all, i) =~= lines_from(names, i) + last + seq!['\n']);
    assert(o.long_from(ctx, dir, all, i) =~= o.long_from(ctx, dir, names, i) + o.long_line(
        ctx,
        child(dir, last),
        last,
    ) + seq!['\n']);
}

/// One path is shown as it is; of several, each behind its name, with an empty line between
/// them. The first that cannot be shown ends the list.
pub proof fn law_several_paths(o: LsOptions, ctx: CmdContext, paths: Seq<Seq<char>>, text: Seq<char>)
    requires
        paths.len() > 0,
        o.path_text(ctx, paths[0]) == Ok::<Seq<char>, (Seq<char>, int)>(text),
    ensures
        paths.len() == 1 ==> o.all_from(ctx, paths, 0).0 == text && o.all_from(ctx, paths, 0).1.len()
            == 0 && o.all_from(ctx, paths, 0).2 == 0,
        paths.len() > 1 ==> o.all_from(ctx, paths, 0).0 == paths[0] + seq![':', '\n'] + text
            + o.all_from(ctx, paths, 1).0,
        paths.len() > 1 ==> (o.path_text(ctx, paths[1]) matches Err((err, code)) ==> o.all_from(
            ctx,
            paths,
            0,
        ) == (
            paths[0] + seq![':', '\n'] + text + seq!['\n'] + paths[1] + seq![':', '\n'],
            err,
            code,
        )),
{
    reveal_strlit(":\n");
    assert(":\n"@ =~= seq![':', '\n']);
    reveal_with_fuel(LsOptions::all_from, 3);
    let none = Seq::<char>::empty();
    if paths.len() == 1 {
        assert(o.all_from(ctx, paths, 1) == (none, none, 0int));
        assert(o.all_from(ctx, paths, 0).0 =~= text);
    } else {
        assert(o.all_from(ctx, paths, 0).0 =~= paths[0] + seq![':', '\n'] + text + o.all_from(
            ctx,
            paths,
            1,
        ).0);
        if let Err((err, code)) = o.path_text(ctx, paths[1]) {
            assert(o.all_from(ctx, paths, 1) == (
                seq!['\n'] + paths[1] + ":\n"@,
                err,
                code,
            ));
            assert(o.all_from(ctx, paths, 0).0 =~= paths[0] + seq![':', '\n'] + text + seq!['\n']
                + paths[1] + seq![':', '\n']);
        }
    }
}

/// What is shown of a path: the complaint where it does not exist, the last name of a file,
/// and the names in a directory.
pub proof fn law_what_is_shown_of_a_path(o: LsOptions, ctx: CmdContext, arg: Seq<char>)
    ensures
        !ctx.has(arg) ==> o.path_text(ctx, arg) == Err::<Seq<char>, (Seq<char>, int)>(
            ("ls: cannot access '"@ + arg + "': No such file or directory\n"@, 2),
        ),
        ctx.has(arg) && ctx.has_file(arg) && !o.long_format ==> o.path_text(ctx, arg) == Ok::<
            Seq<char>,
            (Seq<char>, int),
        >(basename(arg) + seq!['\n']),
        ctx.has(arg) && !ctx.has_file(arg) ==> (ctx.fs.node(ctx.absolute(arg)) matches Some(
            Node::Dir(entries),
        ) ==> o.path_text(ctx, arg) == Ok::<Seq<char>, (Seq<char>, int)>(
            o.dir_text(ctx, ctx.absolute(arg), entries@),
        )),
{
    crate::path::law_resolved_is_absolute(ctx.cwd@, ctx.cwd@, arg);
}

/// What the options of ls mean, each alone, and that it lists the working directory where no
/// path is given.
pub proof fn law_options_of_ls(c: char, p: Seq<char>)
    ensures
        ls_options(seq![Tok::Short(c), Tok::Value(p)]) == (LsOptions {
            long_format: c == 'l',
            show_all: c == 'a',
            one_per_line: c == '1',
            human_readable: c == 'h',
        }),
        ls_paths(seq![Tok::Short(c), Tok::Value(p)]) == seq![p],
        ls_paths(seq![Tok::Short(c)]) == seq![seq!['.']],
{
    let ts = seq![Tok::Short(c), Tok::Value(p)];
    assert(ts[0] == Tok::Short(c));
    assert(ts.contains(Tok::Short(c)));
    reveal_with_fuel(values_from, 3);
    assert(values_from(ts, 0) =~= seq![p]);
    let one = seq![Tok::Short(c)];
    assert(values_from(one, 0).len() == 0);
    reveal_strlit(".");
    assert("."@ =~= seq!['.']);
}

/// No option takes a value; the first argument is the name of the command.
pub proof fn law_options_with_values(name: Seq<char>, args: Seq<Seq<char>>)
    ensures
        ls_tokens(seq![name] + args) == crate::args::tokens(args, Seq::empty(), false),
        ls_tokens(Seq::empty()).len() == 0,
{
    assert((seq![name] + args).skip(1) =~= args);
}

} // verus!
