//! sort.
use amla_sandbox_shell::commands::sort::{self, SortOptions};

fn parse_numeric_prefix(s: &str) -> Option<f64> {
    sort::numeric_prefix(s).and_then(|text| text.parse().ok())
}

/// The places of the numeric prefixes of the lines among themselves.
fn ranks(lines: &[String], opts: &SortOptions) -> Vec<i64> {
    let keys: Vec<Option<f64>> = lines
        .iter()
        .map(|l| parse_numeric_prefix(&sort::get_sort_key(l, opts)))
        .collect();
    keys.iter()
        .map(|k| match k {
            Some(v) => keys.iter().flatten().filter(|o| *o < v).count() as i64,
            None => -1,
        })
        .collect()
}

fn sort_lines(lines: &mut Vec<String>, opts: &SortOptions) {
    let ranks = ranks(lines, opts);
    *lines = sort::sort_lines(lines, opts, &ranks);
}

// parse_numeric_prefix tests

#[test]
fn parse_numeric_prefix_integer() {
    assert_eq!(parse_numeric_prefix("123"), Some(123.0));
    assert_eq!(parse_numeric_prefix("0"), Some(0.0));
    assert_eq!(parse_numeric_prefix("42"), Some(42.0));
}

#[test]
fn parse_numeric_prefix_negative() {
    assert_eq!(parse_numeric_prefix("-5"), Some(-5.0));
    assert_eq!(parse_numeric_prefix("-123"), Some(-123.0));
    assert_eq!(parse_numeric_prefix("+42"), Some(42.0));
}

#[test]
fn parse_numeric_prefix_float() {
    assert_eq!(parse_numeric_prefix("3.25"), Some(3.25));
    assert_eq!(parse_numeric_prefix("-2.5"), Some(-2.5));
    assert_eq!(parse_numeric_prefix(".5"), Some(0.5));
}

#[test]
fn parse_numeric_prefix_with_suffix() {
    assert_eq!(parse_numeric_prefix("123abc"), Some(123.0));
    assert_eq!(parse_numeric_prefix("42.5foo"), Some(42.5));
    assert_eq!(parse_numeric_prefix("10 hello"), Some(10.0));
}

#[test]
fn parse_numeric_prefix_non_numeric() {
    assert_eq!(parse_numeric_prefix("abc"), None);
    assert_eq!(parse_numeric_prefix("hello123"), None);
    assert_eq!(parse_numeric_prefix(""), None);
    assert_eq!(parse_numeric_prefix("   "), None);
}

#[test]
fn parse_numeric_prefix_whitespace() {
    assert_eq!(parse_numeric_prefix("  42"), Some(42.0));
    assert_eq!(parse_numeric_prefix("  -5.5  "), Some(-5.5));
}

#[test]
fn parse_numeric_prefix_sign_only() {
    assert_eq!(parse_numeric_prefix("-"), None);
    assert_eq!(parse_numeric_prefix("+"), None);
    assert_eq!(parse_numeric_prefix("-abc"), None);
}

// sort_lines tests for numeric sorting

fn make_opts(numeric: bool) -> SortOptions {
    SortOptions {
        reverse: false,
        numeric,
        unique: false,
        ignore_case: false,
        key_field: None,
    }
}

#[test]
fn sort_numeric_basic() {
    let mut lines: Vec<String> = vec!["10", "2", "1", "20"]
        .into_iter()
        .map(String::from)
        .collect();
    sort_lines(&mut lines, &make_opts(true));
    assert_eq!(lines, vec!["1", "2", "10", "20"]);
}

#[test]
fn sort_numeric_with_text() {
    // Numbers should come before non-numeric strings
    let mut lines: Vec<String> = vec!["banana", "10", "apple", "2"]
        .into_iter()
        .map(String::from)
        .collect();
    sort_lines(&mut lines, &make_opts(true));
    assert_eq!(lines, vec!["2", "10", "apple", "banana"]);
}

#[test]
fn sort_numeric_prefix_behavior() {
    // "123abc" should be treated as 123
    let mut lines: Vec<String> = vec!["5xyz", "10abc", "2def"]
        .into_iter()
        .map(String::from)
        .collect();
    sort_lines(&mut lines, &make_opts(true));
    assert_eq!(lines, vec!["2def", "5xyz", "10abc"]);
}

#[test]
fn sort_non_numeric_lexical_fallback() {
    // Non-numeric lines should be sorted lexically
    let mut lines: Vec<String> = vec!["cherry", "apple", "banana"]
        .into_iter()
        .map(String::from)
        .collect();
    sort_lines(&mut lines, &make_opts(true));
    assert_eq!(lines, vec!["apple", "banana", "cherry"]);
}

#[test]
fn sort_numeric_negative_numbers() {
    let mut lines: Vec<String> = vec!["5", "-10", "0", "-3"]
        .into_iter()
        .map(String::from)
        .collect();
    sort_lines(&mut lines, &make_opts(true));
    assert_eq!(lines, vec!["-10", "-3", "0", "5"]);
}

#[test]
fn sort_numeric_floats() {
    let mut lines: Vec<String> = vec!["3.14", "2.71", "1.41"]
        .into_iter()
        .map(String::from)
        .collect();
    sort_lines(&mut lines, &make_opts(true));
    assert_eq!(lines, vec!["1.41", "2.71", "3.14"]);
}

fn run_sort(args: &[&str], input: &[u8]) -> String {
    let argv: Vec<String> = args.iter().map(|s| s.to_string()).collect();
    let mut s = sort::run(&argv);
    s.feed(input);
    s.end();
    s.finish(&ranks(&s.lines, &s.opts))
}

#[test]
fn unique_lines_are_printed_once() {
    assert_eq!(run_sort(&["sort", "-u", "-f"], b"a\nA\na\n"), "a\nA\n");
    assert_eq!(run_sort(&["sort", "-u"], b"b\na\nb\na"), "a\nb\n");
    assert_eq!(run_sort(&["sort", "-u", "-n"], b"1 x\n1 y\n1 x\n"), "1 x\n1 y\n");
    assert_eq!(run_sort(&["sort", "-f"], b"a\nA\na\n"), "a\nA\na\n");
}

#[test]
fn lower_case_is_folded_to_upper_case() {
    assert_eq!(run_sort(&["sort", "-f"], b"_\nb\nA\n"), "A\nb\n_\n");
    assert_eq!(run_sort(&["sort", "-f"], "\u{e9}b\n\u{c9}a\n".as_bytes()), "\u{c9}a\n\u{e9}b\n");
}
