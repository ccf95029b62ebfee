//! tr.
use amla_sandbox_shell::commands::tr::{self, expand_set};
use amla_sandbox_shell::commands::Start;

fn run_tr(args: &[&str], input: &[u8]) -> String {
    let argv: Vec<String> = args.iter().map(|s| s.to_string()).collect();
    match tr::run(&argv) {
        Start::Done(said) => said.err,
        Start::Go(mut t) => String::from_utf8(t.feed(input)).unwrap(),
    }
}

#[test]
fn test_expand_set_simple() {
    assert_eq!(expand_set("abc"), vec![b'a', b'b', b'c']);
}

#[test]
fn test_expand_set_range() {
    assert_eq!(expand_set("a-d"), vec![b'a', b'b', b'c', b'd']);
}

#[test]
fn test_expand_set_escapes() {
    assert_eq!(expand_set(r"\n\t"), vec![b'\n', b'\t']);
}

#[test]
fn test_expand_set_mixed() {
    assert_eq!(
        expand_set("a-c0-2"),
        vec![b'a', b'b', b'c', b'0', b'1', b'2']
    );
}

#[test]
fn test_expand_set_descending_range() {
    // z-a should produce z, y, x, ..., a in descending order
    assert_eq!(expand_set("d-a"), vec![b'd', b'c', b'b', b'a']);
}

#[test]
fn test_expand_set_all_escapes() {
    // Test all supported escape sequences
    assert_eq!(expand_set(r"\n"), vec![b'\n']);
    assert_eq!(expand_set(r"\t"), vec![b'\t']);
    assert_eq!(expand_set(r"\r"), vec![b'\r']);
    assert_eq!(expand_set(r"\\"), vec![b'\\']);
    assert_eq!(expand_set(r"\0"), vec![b'\0']);
    assert_eq!(expand_set(r"\a"), vec![0x07]); // bell
    assert_eq!(expand_set(r"\b"), vec![0x08]); // backspace
    assert_eq!(expand_set(r"\f"), vec![0x0C]); // form feed
    assert_eq!(expand_set(r"\v"), vec![0x0B]); // vertical tab
}

#[test]
fn test_expand_set_unknown_escape() {
    // Unknown escapes should pass through the character
    assert_eq!(expand_set(r"\x"), vec![b'x']);
    assert_eq!(expand_set(r"\z"), vec![b'z']);
}

#[test]
fn test_expand_set_single_char() {
    assert_eq!(expand_set("x"), vec![b'x']);
}

#[test]
fn test_expand_set_empty() {
    assert_eq!(expand_set(""), Vec::<u8>::new());
}

#[test]
fn test_expand_set_digit_range() {
    assert_eq!(
        expand_set("0-9"),
        vec![b'0', b'1', b'2', b'3', b'4', b'5', b'6', b'7', b'8', b'9']
    );
}

#[test]
fn test_expand_set_uppercase_range() {
    assert_eq!(expand_set("A-E"), vec![b'A', b'B', b'C', b'D', b'E']);
}

#[test]
fn test_expand_set_trailing_hyphen() {
    // Hyphen at end should be literal since no third char for range
    assert_eq!(expand_set("ab-"), vec![b'a', b'b', b'-']);
}

#[test]
fn test_expand_set_leading_hyphen() {
    // Leading hyphen followed by char, then hyphen - no range formed
    let result = expand_set("-a-");
    assert_eq!(result, vec![b'-', b'a', b'-']);
}

#[test]
fn test_expand_set_multiple_ranges() {
    assert_eq!(
        expand_set("a-cA-C"),
        vec![b'a', b'b', b'c', b'A', b'B', b'C']
    );
}

#[test]
fn test_expand_set_escape_in_range() {
    // Escape at start of potential range: \n (10) to 'p' (112)
    let result = expand_set(r"\n-p");
    assert!(result.len() > 2);
    assert_eq!(result[0], b'\n');
    assert_eq!(*result.last().unwrap(), b'p');
}

#[test]
fn test_expand_set_escape_trailing() {
    // Trailing backslash with no character after is treated as literal
    assert_eq!(expand_set("a\\"), vec![b'a', b'\\']);
}

#[test]
fn test_expand_set_same_char_range() {
    // Range where start equals end
    assert_eq!(expand_set("a-a"), vec![b'a']);
}

#[test]
fn the_second_set_is_squeezed_where_there_is_one() {
    assert_eq!(run_tr(&["tr", "-s", "a", "b"], b"aab"), "b");
    assert_eq!(run_tr(&["tr", "-s", "a", "b"], b"ccaab"), "ccb");
    assert_eq!(run_tr(&["tr", "-s", "a"], b"aabb"), "abb");
    assert_eq!(run_tr(&["tr", "-ds", "a", "b"], b"bacb bab"), "bcb b");
    assert_eq!(run_tr(&["tr", "-cs", "a-z", "_"], b"one, two"), "one_two");
}
