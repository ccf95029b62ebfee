//! grep.
use amla_sandbox_shell::commands::grep::simple_pattern_match;

#[test]
fn test_simple_pattern_match() {
    assert!(simple_pattern_match("hello world", "world"));
    assert!(simple_pattern_match("hello world", "^hello"));
    assert!(simple_pattern_match("hello world", "world$"));
    assert!(simple_pattern_match("hello world", "^hello world$"));
    assert!(simple_pattern_match("hello world", "hel.*rld"));
    assert!(!simple_pattern_match("hello world", "^world"));
    assert!(!simple_pattern_match("hello world", "hello$"));
}
