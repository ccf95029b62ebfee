//! What holds of every input, on some of them.
use amla_sandbox_shell::commands::find::matches_glob;
use amla_sandbox_shell::commands::printf::format_printf;
use amla_sandbox_shell::commands::wc::Counter;
use amla_sandbox_shell::commands::{cut, date, echo, grep, sh, sort, tr, Start};
use amla_sandbox_shell::context::CmdContext;
use amla_sandbox_shell::env::Environment;
use amla_sandbox_shell::fs::Snapshot;
use amla_sandbox_shell::glob::glob_match;
use amla_sandbox_shell::io_handle::IoHandle;

fn argv(line: &[&str]) -> Vec<String> {
    line.iter().map(|s| s.to_string()).collect()
}

fn go<T>(start: Start<T>) -> T {
    match start {
        Start::Go(t) => t,
        Start::Done(said) => panic!("{}{}", said.out, said.err),
    }
}

const TEXTS: [&str; 6] = ["", "a", "plain text", "x.y-z", "\u{e9}\u{4e2d}", "tab\tand space "];

// The environment

#[test]
fn a_set_variable_is_read_back() {
    let mut env = Environment::new();
    env.set("A", "1");
    env.set("B", "2");
    env.set("A", "3");
    assert_eq!((env.get("A"), env.get("B"), env.len()), (Some("3"), Some("2"), 2));
    env.unset("A");
    assert_eq!((env.get("A"), env.get("B"), env.contains("A")), (None, Some("2"), false));
}

#[test]
fn text_without_a_dollar_sign_stays() {
    let mut env = Environment::new();
    env.set("plain", "changed");
    for text in TEXTS {
        assert_eq!(env.expand(text, 7), text);
    }
}

#[test]
fn braces_are_optional() {
    let mut env = Environment::new();
    env.set("NAME_1", "value");
    for name in ["NAME_1", "_", "unset", "A9"] {
        let plain = env.expand(&format!("${name}"), 0);
        assert_eq!(plain, env.expand(&format!("${{{name}}}"), 0));
        assert_eq!(plain, env.get(name).unwrap_or(""));
    }
}

// Patterns

#[test]
fn a_star_matches_all_and_plain_text_itself() {
    for text in TEXTS {
        assert!(glob_match("*", text));
        assert!(matches_glob(text, "*"));
        for other in TEXTS {
            assert_eq!(glob_match(text, other), text == other);
            assert_eq!(matches_glob(other, text), text == other);
        }
    }
}

#[test]
fn a_backslash_takes_the_meaning_of_what_follows() {
    assert!(!glob_match("*\\[*]", "[\\*"));
    assert!(glob_match("\\*", "*") && glob_match("\\\\", "\\"));
}

// Filters

fn run_tr(args: &[&str], input: &[u8], chunk: usize) -> Vec<u8> {
    let mut t = go(tr::run(&argv(args)));
    input.chunks(chunk).flat_map(|c| t.feed(c)).collect()
}

#[test]
fn tr_translates_byte_by_byte() {
    for chunk in [1, 3, 50] {
        assert_eq!(run_tr(&["tr", "a-c", "xy"], b"abcabd", chunk), b"xyyxyd");
        assert_eq!(run_tr(&["tr", "-c", "a-z\\n", "_"], b"a b\nC", chunk), b"a_b\n_");
    }
}

#[test]
fn tr_prints_no_deleted_byte() {
    for chunk in [1, 3, 50] {
        assert_eq!(run_tr(&["tr", "-d", "aeiou"], b"deleted vowels", chunk), b"dltd vwls");
        assert_eq!(run_tr(&["tr", "-cd", "0-9"], b"a1b22", chunk), b"122");
    }
}

#[test]
fn tr_squeezes_runs_of_its_set() {
    for chunk in [1, 3, 50] {
        assert_eq!(run_tr(&["tr", "-s", "ab"], b"aabbccaab", chunk), b"abccab");
        assert_eq!(run_tr(&["tr", "-s", "ab", "xx"], b"aabbcc", chunk), b"xcc");
    }
}

#[test]
fn cut_of_all_places_keeps_lines() {
    for args in [&["cut", "-d:", "-f", "1-"][..], &["cut", "-b", "-"], &["cut", "-c1,2-"]] {
        let mut c = go(cut::run(&argv(args)));
        let mut out = c.feed(b"a:b::c\n\n:x:\nend");
        out.extend(c.end());
        assert_eq!(out, b"a:b::c\n\n:x:\nend\n");
    }
}

#[test]
fn matches_and_the_other_lines_make_up_all_lines() {
    let input = b"one\ntwo\nthree\nfour\n";
    for pattern in ["o", "^t", "x", ""] {
        let count = |flag: &str| {
            let mut g = go(grep::run(&argv(&["grep", flag, pattern])));
            let mut out = g.feed(0, input);
            out.push_str(&g.end(0));
            out.trim().parse::<usize>().unwrap()
        };
        assert_eq!(count("-c") + count("-cv"), 4);
    }
}

#[test]
fn counts_of_two_inputs_add_up() {
    let count = |s: &[u8]| {
        let mut c = Counter::new();
        c.feed(s);
        c.counts
    };
    let (a, b) = ("one two\nth".as_bytes(), "ree \u{e9}\n".as_bytes());
    let all = count(&[a, b].concat());
    let (x, y) = (count(a), count(b));
    assert_eq!(all.bytes, x.bytes + y.bytes);
    assert_eq!(all.lines, x.lines + y.lines);
    assert_eq!(all.chars, x.chars + y.chars);
    // The word that is cut counts once.
    assert_eq!(all.words + 1, x.words + y.words);
}

#[test]
fn sorting_loses_nothing() {
    let mut s = sort::run(&argv(&["sort"]));
    s.feed(b"b\na\nb\n\x01\n");
    s.feed(b"aa");
    s.end();
    assert_eq!(s.finish(&vec![0; 5]), "\u{1}\na\naa\nb\nb\n");
}

// Texts

#[test]
fn plain_formats_and_plain_text_stay() {
    for text in TEXTS {
        assert_eq!(format_printf(text, &argv(&["unused"])), text);
        assert_eq!(echo::interpret_escape_sequences(text), text.as_bytes());
    }
}

#[test]
fn numbers_survive_being_printed() {
    for n in [0, 7, -1, i64::MAX, i64::MIN] {
        assert_eq!(format_printf("%d", &argv(&[&n.to_string()])), n.to_string());
    }
}

#[test]
fn script_lines_are_trimmed() {
    let mut run = sh::Run::new("  a  \n\n# no\n\t#no\nb c\r\n");
    assert_eq!(run.next(), Some("a"));
    run.executed(3);
    assert_eq!(run.next(), Some("b c"));
    run.executed(0);
    assert_eq!((run.next(), run.code), (None, 0));
}

#[test]
fn each_second_has_a_date_of_its_own() {
    let mut seen: Vec<String> = Vec::new();
    for day in 0..3000u64 {
        let text = date::format_date("%Y-%m-%d %H:%M:%S", day * 86_399_000_000_000);
        assert!(!seen.contains(&text));
        seen.push(text);
    }
    assert_eq!(date::format_date("%Y-%m-%d", 951_782_400_000_000_000), "2000-02-29");
}

// The context and its handles

#[test]
fn a_context_knows_its_arguments() {
    let ctx = CmdContext::new(
        argv(&["cmd", "-a", "x"]),
        IoHandle::null(),
        IoHandle::buffer(),
        IoHandle::buffer(),
        "/w".to_string(),
        Environment::new(),
        Snapshot::new(),
    );
    assert_eq!((ctx.command_name(), ctx.cwd()), ("cmd", "/w"));
    assert_eq!(ctx.args(), &argv(&["-a", "x"])[..]);
    let mut parser = ctx.arg_parser();
    assert!(matches!(parser.next(), Ok(Some(lexopt::Arg::Short('a')))));
    assert!(matches!(parser.next(), Ok(Some(lexopt::Arg::Value(v))) if v == "x"));
    assert!(matches!(parser.next(), Ok(None)));
}

#[test]
fn buffers_are_taken_and_drained() {
    let mut b = IoHandle::from_string("text");
    assert_eq!(b.get_buffer().unwrap(), b"text");
    assert_eq!(b.drain(Vec::new()).unwrap(), b"text");
    assert_eq!(b.get_buffer().unwrap(), b"");
    let mut b = IoHandle::from_bytes(vec![1, 2]);
    assert_eq!(b.take_buffer(), vec![1, 2]);
    assert_eq!(IoHandle::null().drain(Vec::new()), None);
    assert_eq!(IoHandle::pipe(8).drain(b"held".to_vec()).unwrap(), b"held");
    let stdin = IoHandle::from_string("in");
    let h = IoHandle::open_file_or_stdin(&Snapshot::new(), "-", stdin).unwrap();
    assert_eq!(h.get_buffer().unwrap(), b"in");
    assert!(IoHandle::open_file_or_stdin(&Snapshot::new(), "/f", IoHandle::null()).is_err());
}
