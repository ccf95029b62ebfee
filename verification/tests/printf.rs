//! printf.
use amla_sandbox_shell::commands::printf;

fn format_printf(format: &str, values: &[&str]) -> String {
    let values: Vec<String> = values.iter().map(|s| s.to_string()).collect();
    printf::format_printf(format, &values)
}

// Escape Sequence Tests

#[test]
fn printf_escape_newline() {
    assert_eq!(format_printf("hello\\nworld", &[]), "hello\nworld");
}

#[test]
fn printf_escape_tab() {
    assert_eq!(format_printf("col1\\tcol2", &[]), "col1\tcol2");
}

#[test]
fn printf_escape_carriage_return() {
    assert_eq!(format_printf("line\\roverwrite", &[]), "line\roverwrite");
}

#[test]
fn printf_escape_backslash() {
    assert_eq!(format_printf("path\\\\file", &[]), "path\\file");
}

#[test]
fn printf_escape_null() {
    let result = format_printf("before\\0after", &[]);
    assert_eq!(result, "before\0after");
}

#[test]
fn printf_escape_octal_simple() {
    // \0101 = 'A' (65 in decimal, 101 in octal)
    assert_eq!(format_printf("\\0101", &[]), "A");
}

#[test]
fn printf_escape_octal_partial() {
    // \012 = newline (10 in decimal, 12 in octal)
    assert_eq!(format_printf("\\012", &[]), "\n");
}

#[test]
fn escape_unknown() {
    // Unknown escape sequences are kept as-is
    assert_eq!(format_printf("\\q", &[]), "\\q");
}

#[test]
fn printf_escape_trailing_backslash() {
    assert_eq!(format_printf("end\\", &[]), "end\\");
}

#[test]
fn printf_escape_multiple() {
    assert_eq!(format_printf("a\\nb\\tc\\\\d", &[]), "a\nb\tc\\d");
}

// Format Specifier Tests

#[test]
fn format_string_basic() {
    assert_eq!(format_printf("hello %s", &["world"]), "hello world");
}

#[test]
fn format_string_multiple() {
    assert_eq!(format_printf("%s %s", &["hello", "world"]), "hello world");
}

#[test]
fn format_string_missing_arg() {
    // Missing arg produces empty string
    assert_eq!(format_printf("%s %s", &["only"]), "only ");
}

#[test]
fn format_decimal_basic() {
    assert_eq!(format_printf("count: %d", &["42"]), "count: 42");
}

#[test]
fn format_decimal_negative() {
    assert_eq!(format_printf("num: %d", &["-123"]), "num: -123");
}

#[test]
fn format_decimal_invalid() {
    // Invalid number becomes 0
    assert_eq!(format_printf("num: %d", &["notanumber"]), "num: 0");
}

#[test]
fn format_decimal_missing_arg() {
    assert_eq!(format_printf("num: %d", &[]), "num: 0");
}

#[test]
fn format_hex_lower() {
    assert_eq!(format_printf("hex: %x", &["255"]), "hex: ff");
}

#[test]
fn format_hex_upper() {
    assert_eq!(format_printf("hex: %X", &["255"]), "hex: FF");
}

#[test]
fn format_hex_missing_arg() {
    assert_eq!(format_printf("hex: %x", &[]), "hex: 0");
}

#[test]
fn format_octal() {
    assert_eq!(format_printf("oct: %o", &["64"]), "oct: 100");
}

#[test]
fn format_octal_missing_arg() {
    assert_eq!(format_printf("oct: %o", &[]), "oct: 0");
}

#[test]
fn format_char() {
    assert_eq!(format_printf("char: %c", &["hello"]), "char: h");
}

#[test]
fn format_char_empty() {
    assert_eq!(format_printf("char: %c", &[""]), "char: ");
}

#[test]
fn format_char_missing_arg() {
    assert_eq!(format_printf("char: %c", &[]), "char: ");
}

#[test]
fn format_percent() {
    assert_eq!(format_printf("100%%", &[]), "100%");
}

#[test]
fn printf_format_unknown_specifier() {
    assert_eq!(format_printf("%z", &[]), "%z");
}

#[test]
fn printf_format_trailing_percent() {
    assert_eq!(format_printf("end%", &[]), "end%");
}

// Combined Tests

#[test]
fn combined_escapes_and_formats() {
    assert_eq!(
        format_printf("Name: %s\\nAge: %d", &["Alice", "30"]),
        "Name: Alice\nAge: 30"
    );
}

#[test]
fn complex_format() {
    let result = format_printf("User %s has %d items (0x%x)\\n", &["bob", "15", "255"]);
    assert_eq!(result, "User bob has 15 items (0xff)\n");
}

#[test]
fn no_format_specifiers() {
    assert_eq!(format_printf("plain text", &[]), "plain text");
}

#[test]
fn extra_args_ignored() {
    assert_eq!(format_printf("%s", &["used", "unused"]), "used");
}

#[test]
fn printf_octal_value_is_a_character() {
    let argv: Vec<String> =
        ["printf", r"%s\0377", "\u{e9}"].iter().map(|s| s.to_string()).collect();
    let said = printf::run(&argv);
    assert_eq!((said.out.as_str(), said.code), ("\u{e9}\u{ff}", 0));
    assert_eq!(format_printf(r"a\0777b", &[]), "ab");
    let said = printf::run(&argv[..1].to_vec());
    assert_eq!((said.err.as_str(), said.code), ("printf: missing format\n", 1));
}
