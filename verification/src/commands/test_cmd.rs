//! test - evaluate conditional expression
use vstd::prelude::*;
use crate::commands::Said;
use crate::context::CmdContext;
use crate::num::{parse_i64, read_i64, signed_decimal};
use crate::text::{str_eq, strs, to_chars};

verus! {

/// A number; zero where the text is none.
pub open spec fn number(s: Seq<char>) -> int {
    match read_i64(s) {
        Some(n) => n,
        None => 0,
    }
}

/// What a test of two texts gives.
pub open spec fn compares(left: Seq<char>, op: Seq<char>, right: Seq<char>) -> bool {
    if op == "="@ || op == "=="@ {
        left == right
    } else if op == "!="@ {
        left != right
    } else if op == "-eq"@ {
        number(left) == number(right)
    } else if op == "-ne"@ {
        number(left) != number(right)
    } else if op == "-lt"@ {
        number(left) < number(right)
    } else if op == "-le"@ {
        number(left) <= number(right)
    } else if op == "-gt"@ {
        number(left) > number(right)
    } else if op == "-ge"@ {
        number(left) >= number(right)
    } else {
        false
    }
}

/// What a test of one text gives.
pub open spec fn checks(ctx: CmdContext, op: Seq<char>, arg: Seq<char>) -> bool {
    if op == "-e"@ || op == "-r"@ || op == "-w"@ {
        ctx.has(arg)
    } else if op == "-f"@ {
        ctx.has_file(arg)
    } else if op == "-d"@ {
        ctx.has_dir(arg)
    } else if op == "-s"@ {
        ctx.size_of(arg) matches Some(n) && n > 0
    } else if op == "-x"@ {
        false
    } else if op == "-z"@ {
        arg.len() == 0
    } else {
        arg.len() > 0
    }
}

/// Where the parenthesis that is `depth` deep closes, from `i` on; nowhere where the
/// arguments end before it.
pub open spec fn closing(args: Seq<Seq<char>>, depth: int, i: int) -> Option<int>
    decreases args.len() - i,
{
    if i < 0 || i >= args.len() {
        None
    } else if args[i] == "("@ {
        closing(args, depth + 1, i + 1)
    } else if args[i] == ")"@ {
        if depth == 1 {
            Some(i)
        } else {
            closing(args, depth - 1, i + 1)
        }
    } else {
        closing(args, depth, i + 1)
    }
}

/// The first place from `i` on, before the last argument, where `word` stands.
pub open spec fn place_from(args: Seq<Seq<char>>, word: Seq<char>, i: int) -> Option<int>
    decreases args.len() - i,
{
    if i < 0 || i >= args.len() - 1 {
        None
    } else if args[i] == word {
        Some(i)
    } else {
        place_from(args, word, i + 1)
    }
}

/// The value of an expression.
pub open spec fn value(ctx: CmdContext, args: Seq<Seq<char>>) -> bool
    decreases args.len(),
{
    let end = closing(args, 1, 1);
    if args.len() == 0 {
        false
    } else if args[0] == "!"@ {
        !value(ctx, args.skip(1))
    } else if args[0] == "("@ && (end matches Some(e) && 1 <= e < args.len()) {
        let e = end->0;
        let inner = value(ctx, args.subrange(1, e));
        let rest = args.skip(e + 1);
        if rest.len() >= 2 && rest[0] == "-a"@ {
            inner && value(ctx, rest.skip(1))
        } else if rest.len() >= 2 && rest[0] == "-o"@ {
            inner || value(ctx, rest.skip(1))
        } else {
            inner
        }
    } else if args.len() == 1 {
        args[0].len() > 0
    } else if args.len() == 2 {
        checks(ctx, args[0], args[1])
    } else {
        match place_from(args, "-a"@, 1) {
            Some(i) => 1 <= i < args.len() && value(ctx, args.take(i)) && value(
                ctx,
                args.skip(i + 1),
            ),
            None => match place_from(args, "-o"@, 1) {
                Some(i) => 1 <= i < args.len() && (value(ctx, args.take(i)) || value(
                    ctx,
                    args.skip(i + 1),
                )),
                None => args.len() == 3 && compares(args[0], args[1], args[2]),
            },
        }
    }
}

fn read_number(s: &str) -> (r: i64)
    ensures
        r == number(s@),
{
    let cs = to_chars(s);
    match parse_i64(&cs) {
        Some(n) => n,
        None => 0,
    }
}

/// Tests two texts.
pub fn binary_test(left: &str, op: &str, right: &str) -> (r: bool)
    ensures
        r == compares(left@, op@, right@),
{
    if str_eq(op, "=") || str_eq(op, "==") {
        str_eq(left, right)
    } else if str_eq(op, "!=") {
        !str_eq(left, right)
    } else if str_eq(op, "-eq") {
        read_number(left) == read_number(right)
    } else if str_eq(op, "-ne") {
        read_number(left) != read_number(right)
    } else if str_eq(op, "-lt") {
        read_number(left) < read_number(right)
    } else if str_eq(op, "-le") {
        read_number(left) <= read_number(right)
    } else if str_eq(op, "-gt") {
        read_number(left) > read_number(right)
    } else if str_eq(op, "-ge") {
        read_number(left) >= read_number(right)
    } else {
        false
    }
}

fn is_blank(s: &str) -> (r: bool)
    ensures
        r == (s@.len() == 0),
{
    let cs = to_chars(s);
    cs.len() == 0
}

/// Tests one text.
pub fn unary_test(ctx: &CmdContext, op: &str, arg: &str) -> (r: bool)
    ensures
        r == checks(*ctx, op@, arg@),
{
    if str_eq(op, "-e") || str_eq(op, "-r") || str_eq(op, "-w") {
        ctx.path_exists(arg)
    } else if str_eq(op, "-f") {
        ctx.is_file(arg)
    } else if str_eq(op, "-d") {
        ctx.is_dir(arg)
    } else if str_eq(op, "-s") {
        match ctx.stat(arg) {
            Ok(s) => s.size > 0,
            Err(_) => false,
        }
    } else if str_eq(op, "-x") {
        false
    } else if str_eq(op, "-z") {
        is_blank(arg)
    } else {
        !is_blank(arg)
    }
}

fn find_closing(args: &Vec<String>, lo: usize, hi: usize) -> (r: Option<usize>)
    requires
        lo < hi <= args@.len(),
    ensures
        match r {
            Some(e) => lo < e < hi && closing(strs(args@).subrange(lo as int, hi as int), 1, 1)
                == Some(e - lo),
            None => closing(strs(args@).subrange(lo as int, hi as int), 1, 1) is None,
        },
{
    let ghost all = strs(args@).subrange(lo as int, hi as int);
    let mut depth: usize = 1;
    let mut i: usize = lo + 1;
    while i < hi
        invariant
            lo < i <= hi <= args@.len(),
            all == strs(args@).subrange(lo as int, hi as int),
            1 <= depth <= i - lo,
            closing(all, depth as int, i - lo) == closing(all, 1, 1),
        decreases hi - i,
    {
        proof {
            assert(all[i - lo] == args@[i as int]@);
        }
        if str_eq(args[i].as_str(), "(") {
            depth += 1;
        } else if str_eq(args[i].as_str(), ")") {
            if depth == 1 {
                return Some(i);
            }
            depth -= 1;
        }
        i += 1;
    }
    None
}

fn find_word(args: &Vec<String>, lo: usize, hi: usize, word: &str) -> (r: Option<usize>)
    requires
        lo + 3 <= hi <= args@.len(),
    ensures
        match r {
            Some(e) => lo < e < hi - 1 && place_from(
                strs(args@).subrange(lo as int, hi as int),
                word@,
                1,
            ) == Some(e - lo),
            None => place_from(strs(args@).subrange(lo as int, hi as int), word@, 1) is None,
        },
{
    let ghost all = strs(args@).subrange(lo as int, hi as int);
    let mut i: usize = lo + 1;
    while i < hi - 1
        invariant
            lo + 3 <= hi <= args@.len(),
            lo < i < hi,
            all == strs(args@).subrange(lo as int, hi as int),
            place_from(all, word@, i - lo) == place_from(all, word@, 1),
        decreases hi - i,
    {
        proof {
            assert(all[i - lo] == args@[i as int]@);
        }
        if str_eq(args[i].as_str(), word) {
            return Some(i);
        }
        i += 1;
    }
    None
}

/// Evaluates the expression that the arguments from `lo` to `hi` make.
pub fn evaluate(ctx: &CmdContext, args: &Vec<String>, lo: usize, hi: usize) -> (r: bool)
    requires
        lo <= hi <= args@.len(),
    ensures
        r == value(*ctx, strs(args@).subrange(lo as int, hi as int)),
    decreases hi - lo,
{
    let ghost words = strs(args@);
    let ghost all = words.subrange(lo as int, hi as int);
    if lo == hi {
        return false;
    }
    proof {
        assert(all[0] == args@[lo as int]@);
    }
    if str_eq(args[lo].as_str(), "!") {
        proof {
            assert(all.skip(1) =~= words.subrange(lo + 1, hi as int));
        }
        return !evaluate(ctx, args, lo + 1, hi);
    }
    if str_eq(args[lo].as_str(), "(") {
        match find_closing(args, lo, hi) {
            Some(e) => {
                proof {
                    assert(all.subrange(1, e - lo) =~= words.subrange(lo + 1, e as int));
                    assert(all.skip(e - lo + 1) =~= words.subrange(e + 1, hi as int));
                }
                let inner = evaluate(ctx, args, lo + 1, e);
                let rest = e + 1;
                if hi - rest >= 2 {
                    proof {
                        assert(all.skip(e - lo + 1)[0] == args@[rest as int]@);
                        assert(all.skip(e - lo + 1).skip(1) =~= words.subrange(
                            rest + 1,
                            hi as int,
                        ));
                    }
                    if str_eq(args[rest].as_str(), "-a") {
                        return inner && evaluate(ctx, args, rest + 1, hi);
                    } else if str_eq(args[rest].as_str(), "-o") {
                        return inner || evaluate(ctx, args, rest + 1, hi);
                    }
                }
                return inner;
            },
            None => {},
        }
    }
    if hi - lo == 1 {
        return !is_blank(args[lo].as_str());
    }
    proof {
        assert(all[1] == args@[lo + 1]@);
    }
    if hi - lo == 2 {
        return unary_test(ctx, args[lo].as_str(), args[lo + 1].as_str());
    }
    match find_word(args, lo, hi, "-a") {
        Some(i) => {
            proof {
                assert(all.take(i - lo) =~= words.subrange(lo as int, i as int));
                assert(all.skip(i - lo + 1) =~= words.subrange(i + 1, hi as int));
            }
            let left = evaluate(ctx, args, lo, i);
            let right = evaluate(ctx, args, i + 1, hi);
            return left && right;
        },
        None => {},
    }
    match find_word(args, lo, hi, "-o") {
        Some(i) => {
            proof {
                assert(all.take(i - lo) =~= words.subrange(lo as int, i as int));
                assert(all.skip(i - lo + 1) =~= words.subrange(i + 1, hi as int));
            }
            let left = evaluate(ctx, args, lo, i);
            let right = evaluate(ctx, args, i + 1, hi);
            return left || right;
        },
        None => {},
    }
    if hi - lo == 3 {
        proof {
            assert(all[2] == args@[lo + 2]@);
        }
        return binary_test(args[lo].as_str(), args[lo + 1].as_str(), args[lo + 2].as_str());
    }
    false
}

/// The expression that the arguments hold: behind `test`, or between `[` and `]`;
/// none where the `]` is missing.
pub open spec fn expression(argv: Seq<Seq<char>>) -> Option<Seq<Seq<char>>> {
    if argv[0] == "["@ {
        if argv.last() == "]"@ {
            Some(argv.subrange(1, argv.len() - 1))
        } else {
            None
        }
    } else {
        Some(argv.skip(1))
    }
}

/// Runs test: the exit code is 0 where the expression holds, 1 where it does not or
/// is empty, and 2 where the `]` of a `[` is missing.
pub fn run(ctx: &CmdContext) -> (r: Said)
    requires
        ctx.argv@.len() > 0,
    ensures
        match expression(strs(ctx.argv@)) {
            None => r.says(Seq::empty(), "[: missing ']'"@ + seq!['\n'], 2),
            Some(args) => r.says(
                Seq::empty(),
                Seq::empty(),
                if args.len() > 0 && value(*ctx, args) {
                    0
                } else {
                    1
                },
            ),
        },
{
    let n = ctx.argv.len();
    let ghost words = strs(ctx.argv@);
    proof {
        assert(words[0] == ctx.argv@[0]@);
        assert(words.last() == ctx.argv@[n - 1]@);
        reveal_strlit("[");
        reveal_strlit("]");
        assert("["@[0] == '[' && "]"@[0] == ']');
    }
    let hi = if str_eq(ctx.argv[0].as_str(), "[") {
        if !str_eq(ctx.argv[n - 1].as_str(), "]") {
            return Said::complaint("[: missing ']'", 2);
        }
        n - 1
    } else {
        n
    };
    proof {
        assert(hi >= 1);
        assert(words.skip(1) =~= words.subrange(1, n as int));
    }
    let holds = hi > 1 && evaluate(ctx, &ctx.argv, 1, hi);
    Said {
        out: String::new(),
        err: String::new(),
        code: if holds {
            0
        } else {
            1
        },
    }
}

/// An exclamation mark turns the value of what follows round.
pub proof fn law_not_turns_round(ctx: CmdContext, args: Seq<Seq<char>>)
    ensures
        value(ctx, seq!["!"@] + args) == !value(ctx, args),
{
    let all = seq!["!"@] + args;
    assert(all.skip(1) =~= args);
}

proof fn lemma_operators()
    ensures
        "="@.len() == 1 && "=="@.len() == 2 && "!="@.len() == 2 && "!="@[0] == '!' && "=="@[0]
            == '=',
        "-eq"@.len() == 3 && "-eq"@[1] == 'e' && "-eq"@[2] == 'q',
        "-ne"@.len() == 3 && "-ne"@[1] == 'n' && "-ne"@[2] == 'e',
        "-lt"@.len() == 3 && "-lt"@[1] == 'l' && "-lt"@[2] == 't',
        "-le"@.len() == 3 && "-le"@[1] == 'l' && "-le"@[2] == 'e',
        "-gt"@.len() == 3 && "-gt"@[1] == 'g' && "-gt"@[2] == 't',
        "-ge"@.len() == 3 && "-ge"@[1] == 'g' && "-ge"@[2] == 'e',
        "-e"@.len() == 2 && "-e"@[1] == 'e',
        "-r"@.len() == 2 && "-r"@[1] == 'r',
        "-w"@.len() == 2 && "-w"@[1] == 'w',
        "-f"@.len() == 2 && "-f"@[1] == 'f',
        "-d"@.len() == 2 && "-d"@[1] == 'd',
        "-s"@.len() == 2 && "-s"@[1] == 's',
        "-x"@.len() == 2 && "-x"@[1] == 'x',
        "-z"@.len() == 2 && "-z"@[1] == 'z',
        "-n"@.len() == 2 && "-n"@[1] == 'n',
        "-a"@.len() == 2 && "-a"@[0] == '-' && "-a"@[1] == 'a',
        "-o"@.len() == 2 && "-o"@[0] == '-' && "-o"@[1] == 'o',
        "!"@.len() == 1 && "!"@[0] == '!',
        "("@.len() == 1 && "("@[0] == '(',
        ")"@.len() == 1 && ")"@[0] == ')',
        "="@[0] == '=',
{
    reveal_strlit("=");
    reveal_strlit("==");
    reveal_strlit("!=");
    reveal_strlit("-eq");
    reveal_strlit("-ne");
    reveal_strlit("-lt");
    reveal_strlit("-le");
    reveal_strlit("-gt");
    reveal_strlit("-ge");
    reveal_strlit("-e");
    reveal_strlit("-r");
    reveal_strlit("-w");
    reveal_strlit("-f");
    reveal_strlit("-d");
    reveal_strlit("-s");
    reveal_strlit("-x");
    reveal_strlit("-z");
    reveal_strlit("-n");
    reveal_strlit("-a");
    reveal_strlit("-o");
    reveal_strlit("!");
    reveal_strlit("(");
    reveal_strlit(")");
}

/// Texts are compared as they are, and numbers by their values.
pub proof fn law_comparisons(ctx: CmdContext, x: Seq<char>, y: Seq<char>, a: i64, b: i64)
    requires
        x != "!"@ && x != "("@,
    ensures
        value(ctx, seq![x, "="@, y]) == (x == y),
        value(ctx, seq![x, "=="@, y]) == (x == y),
        value(ctx, seq![x, "!="@, y]) == (x != y),
        ({
            let m = signed_decimal(a as int);
            let n = signed_decimal(b as int);
            &&& value(ctx, seq![m, "-eq"@, n]) == (a == b)
            &&& value(ctx, seq![m, "-ne"@, n]) == (a != b)
            &&& value(ctx, seq![m, "-lt"@, n]) == (a < b)
            &&& value(ctx, seq![m, "-le"@, n]) == (a <= b)
            &&& value(ctx, seq![m, "-gt"@, n]) == (a > b)
            &&& value(ctx, seq![m, "-ge"@, n]) == (a >= b)
        }),
{
    lemma_operators();
    let m = signed_decimal(a as int);
    let n = signed_decimal(b as int);
    crate::num::lemma_i64_reads_back(a);
    crate::num::lemma_i64_reads_back(b);
    assert(m != "!"@ && m != "("@) by {
        if m.len() == 1 {
            assert(read_i64(m) is Some);
            assert(m[0] != '!' && m[0] != '(');
        }
    }
    lemma_three(ctx, x, "="@, y);
    lemma_three(ctx, x, "=="@, y);
    lemma_three(ctx, x, "!="@, y);
    lemma_three(ctx, m, "-eq"@, n);
    lemma_three(ctx, m, "-ne"@, n);
    lemma_three(ctx, m, "-lt"@, n);
    lemma_three(ctx, m, "-le"@, n);
    lemma_three(ctx, m, "-gt"@, n);
    lemma_three(ctx, m, "-ge"@, n);
}

proof fn lemma_three(ctx: CmdContext, x: Seq<char>, op: Seq<char>, y: Seq<char>)
    requires
        x != "!"@ && x != "("@,
        op != "-a"@ && op != "-o"@,
    ensures
        value(ctx, seq![x, op, y]) == compares(x, op, y),
{
    let args = seq![x, op, y];
    assert(args[0] == x && args[1] == op && args[2] == y);
    reveal_with_fuel(place_from, 3);
    assert(place_from(args, "-a"@, 1) is None);
    assert(place_from(args, "-o"@, 1) is None);
}

/// A text alone is true where it is not empty, and so it is behind `-n`; behind `-z` it is
/// true where it is empty. The other operators ask for the file of that name.
pub proof fn law_questions(ctx: CmdContext, x: Seq<char>)
    requires
        x != "!"@,
    ensures
        !value(ctx, Seq::empty()),
        value(ctx, seq![x]) == (x.len() > 0),
        value(ctx, seq!["-n"@, x]) == (x.len() > 0),
        value(ctx, seq!["-z"@, x]) == (x.len() == 0),
        value(ctx, seq!["-e"@, x]) == ctx.has(x),
        value(ctx, seq!["-r"@, x]) == ctx.has(x),
        value(ctx, seq!["-w"@, x]) == ctx.has(x),
        value(ctx, seq!["-f"@, x]) == ctx.has_file(x),
        value(ctx, seq!["-d"@, x]) == ctx.has_dir(x),
        value(ctx, seq!["-s"@, x]) == (ctx.size_of(x) matches Some(n) && n > 0),
        !value(ctx, seq!["-x"@, x]),
{
    lemma_operators();
    let one = seq![x];
    assert(one[0] == x);
    reveal_with_fuel(closing, 2);
    assert(closing(one, 1, 1) is None);
    lemma_two(ctx, "-n"@, x);
    lemma_two(ctx, "-z"@, x);
    lemma_two(ctx, "-e"@, x);
    lemma_two(ctx, "-r"@, x);
    lemma_two(ctx, "-w"@, x);
    lemma_two(ctx, "-f"@, x);
    lemma_two(ctx, "-d"@, x);
    lemma_two(ctx, "-s"@, x);
    lemma_two(ctx, "-x"@, x);
}

proof fn lemma_two(ctx: CmdContext, op: Seq<char>, x: Seq<char>)
    requires
        op != "!"@ && op != "("@,
    ensures
        value(ctx, seq![op, x]) == checks(ctx, op, x),
{
    let args = seq![op, x];
    assert(args[0] == op && args[1] == x);
}

proof fn lemma_no_place(args: Seq<Seq<char>>, word: Seq<char>, from: int, to: int)
    requires
        0 <= from <= to <= args.len(),
        forall|k: int| from <= k < to ==> #[trigger] args[k] != word,
    ensures
        place_from(args, word, from) == place_from(args, word, to) || (to >= args.len() - 1
            && place_from(args, word, from) is None),
    decreases to - from,
{
    if from < to {
        assert(args[from] != word);
        if from < args.len() - 1 {
            lemma_no_place(args, word, from + 1, to);
        }
    }
}

/// Two expressions with `-a` between them are true where both are, with `-o` where one is;
/// `-a` is looked for first.
pub proof fn law_and_or(ctx: CmdContext, left: Seq<Seq<char>>, right: Seq<Seq<char>>)
    requires
        left.len() > 0 && right.len() > 0,
        left[0] != "!"@ && left[0] != "("@,
        forall|k: int| 1 <= k < left.len() ==> #[trigger] left[k] != "-a"@,
    ensures
        value(ctx, left + seq!["-a"@] + right) == (value(ctx, left) && value(ctx, right)),
        (forall|k: int| 1 <= k < left.len() ==> #[trigger] left[k] != "-o"@) && (forall|k: int|
            0 <= k < right.len() ==> #[trigger] right[k] != "-a"@) ==> value(
            ctx,
            left + seq!["-o"@] + right,
        ) == (value(ctx, left) || value(ctx, right)),
{
    lemma_operators();
    let n = left.len() as int;
    let both = left + seq!["-a"@] + right;
    assert(both[0] == left[0]);
    assert(both[n] == "-a"@);
    assert forall|k: int| 1 <= k < n implies #[trigger] both[k] != "-a"@ by {
        assert(both[k] == left[k]);
    }
    lemma_no_place(both, "-a"@, 1, n);
    assert(place_from(both, "-a"@, 1) == Some(n));
    assert(both.take(n) =~= left);
    assert(both.skip(n + 1) =~= right);
    if (forall|k: int| 1 <= k < left.len() ==> #[trigger] left[k] != "-o"@) && (forall|k: int|
        0 <= k < right.len() ==> #[trigger] right[k] != "-a"@) {
        let either = left + seq!["-o"@] + right;
        assert(either[0] == left[0]);
        assert(either[n] == "-o"@);
        assert forall|k: int| 1 <= k < n implies #[trigger] either[k] != "-o"@ by {
            assert(either[k] == left[k]);
        }
        assert forall|k: int| 1 <= k < either.len() implies #[trigger] either[k] != "-a"@ by {
            if k < n {
                assert(either[k] == left[k]);
            } else if k > n {
                assert(either[k] == right[k - n - 1]);
            }
        }
        lemma_no_place(either, "-o"@, 1, n);
        lemma_no_place(either, "-a"@, 1, either.len() as int);
        assert(place_from(either, "-a"@, 1) is None);
        assert(place_from(either, "-o"@, 1) == Some(n));
        assert(either.take(n) =~= left);
        assert(either.skip(n + 1) =~= right);
    }
}

/// How many of the parentheses that are opened among the first `n` arguments are still open.
pub open spec fn level(args: Seq<Seq<char>>, n: int) -> int
    decreases n,
{
    if n <= 0 || n > args.len() {
        0
    } else if args[n - 1] == "("@ {
        level(args, n - 1) + 1
    } else if args[n - 1] == ")"@ {
        level(args, n - 1) - 1
    } else {
        level(args, n - 1)
    }
}

/// Whether each parenthesis has its partner.
pub open spec fn balanced(args: Seq<Seq<char>>) -> bool {
    &&& level(args, args.len() as int) == 0
    &&& forall|n: int| 0 <= n <= args.len() ==> #[trigger] level(args, n) >= 0
}

/// An expression in parentheses has the value of what stands in them.
pub proof fn law_parentheses(ctx: CmdContext, inner: Seq<Seq<char>>, right: Seq<Seq<char>>)
    requires
        right.len() > 0,
        balanced(inner),
    ensures
        value(ctx, seq!["("@] + inner + seq![")"@]) == value(ctx, inner),
        value(ctx, seq!["("@] + inner + seq![")"@, "-a"@] + right) == (value(ctx, inner) && value(
            ctx,
            right,
        )),
        value(ctx, seq!["("@] + inner + seq![")"@, "-o"@] + right) == (value(ctx, inner) || value(
            ctx,
            right,
        )),
{
    lemma_operators();
    let n = inner.len() as int;
    let alone = seq!["("@] + inner + seq![")"@];
    lemma_closed(alone, inner, 1);
    assert(alone[0] == "("@);
    assert(alone.subrange(1, n + 1) =~= inner);
    assert(alone.skip(n + 2).len() == 0);
    let with_and = seq!["("@] + inner + seq![")"@, "-a"@] + right;
    lemma_closed(with_and, inner, 1);
    assert(with_and[0] == "("@);
    assert(with_and.subrange(1, n + 1) =~= inner);
    assert(with_and.skip(n + 2) =~= seq!["-a"@] + right);
    assert((seq!["-a"@] + right)[0] == "-a"@);
    assert((seq!["-a"@] + right).skip(1) =~= right);
    let with_or = seq!["("@] + inner + seq![")"@, "-o"@] + right;
    lemma_closed(with_or, inner, 1);
    assert(with_or[0] == "("@);
    assert(with_or.subrange(1, n + 1) =~= inner);
    assert(with_or.skip(n + 2) =~= seq!["-o"@] + right);
    assert((seq!["-o"@] + right)[0] == "-o"@);
    assert((seq!["-o"@] + right).skip(1) =~= right);
}

proof fn lemma_closed(args: Seq<Seq<char>>, inner: Seq<Seq<char>>, i: int)
    requires
        1 <= i <= inner.len() + 1 < args.len(),
        balanced(inner),
        forall|k: int| 0 <= k < inner.len() ==> args[k + 1] == #[trigger] inner[k],
        args[inner.len() as int + 1] == ")"@,
    ensures
        closing(args, 1 + level(inner, i - 1), i) == Some(inner.len() as int + 1),
    decreases inner.len() + 1 - i,
{
    lemma_operators();
    if i <= inner.len() {
        assert(args[i] == inner[i - 1]);
        assert(level(inner, i) >= 0);
        lemma_closed(args, inner, i + 1);
    }
}

/// Behind `[` the expression ends before `]`, which has to be there.
pub proof fn law_brackets(args: Seq<Seq<char>>, name: Seq<char>)
    requires
        name != "["@,
    ensures
        expression(seq!["["@] + args + seq!["]"@]) == Some(args),
        args.len() > 0 && args.last() != "]"@ ==> expression(seq!["["@] + args) is None,
        expression(seq![name] + args) == Some(args),
{
    let a = seq!["["@] + args + seq!["]"@];
    assert(a[0] == "["@ && a.last() == "]"@);
    assert(a.subrange(1, a.len() - 1) =~= args);
    let b = seq!["["@] + args;
    assert(b[0] == "["@);
    if args.len() > 0 {
        assert(b.last() == args.last());
    }
    let c = seq![name] + args;
    assert(c[0] == name);
    assert(c.skip(1) =~= args);
}

} // verus!
