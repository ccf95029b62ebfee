//! date.
use std::cell::RefCell;
use std::rc::Rc;

use amla_sandbox_shell::commands::date::{self, format_date, is_leap_year};
use amla_sandbox_shell::commands::{Said, Start};

/// What a command writes to a stream.
#[derive(Clone)]
struct Out(Rc<RefCell<Vec<u8>>>);

impl Out {
    fn new() -> Out {
        Out(Rc::new(RefCell::new(Vec::new())))
    }

    fn write(&self, text: &str) {
        self.0.borrow_mut().extend_from_slice(text.as_bytes());
    }

    fn get_buffer(&self) -> Option<Vec<u8>> {
        Some(self.0.borrow().clone())
    }
}

/// A date command, the time, and its streams.
struct Ctx {
    argv: Vec<String>,
    now: u64,
    out: Out,
    err: Out,
}

fn make_ctx(argv: Vec<&str>, now: u64) -> (Ctx, Out, Out) {
    let (out, err) = (Out::new(), Out::new());
    let argv = argv.into_iter().map(String::from).collect();
    (Ctx { argv, now, out: out.clone(), err: err.clone() }, out, err)
}

fn run(ctx: Ctx) -> Said {
    match date::run(&ctx.argv) {
        Start::Done(said) => {
            ctx.err.write(&said.err);
            said
        }
        Start::Go(format) => {
            let text = format_date(&format, ctx.now);
            ctx.out.write(&format!("{text}\n"));
            Said { out: text, err: String::new(), code: 0 }
        }
    }
}

#[test]
fn leap_year() {
    assert!(is_leap_year(2000));
    assert!(is_leap_year(2024));
    assert!(!is_leap_year(1900));
    assert!(!is_leap_year(2023));
}

#[test]
fn format_epoch() {
    // Unix epoch: 1970-01-01 00:00:00
    let epoch = 0u64;
    assert_eq!(format_date("%Y-%m-%d", epoch), "1970-01-01");
    assert_eq!(format_date("%H:%M:%S", epoch), "00:00:00");
    assert_eq!(format_date("%s", epoch), "0");
}

#[test]
fn format_known_date() {
    // 2024-01-01 00:00:00 UTC
    // Unix timestamp: 1704067200 seconds (verified externally)
    let secs = 1704067200u64;
    let nanos = secs * 1_000_000_000;
    assert_eq!(format_date("%Y-%m-%d", nanos), "2024-01-01");
    assert_eq!(format_date("%H:%M:%S", nanos), "00:00:00");
}

#[test]
fn format_specifiers() {
    let nanos = 1_000_000_000u64; // 1 second after epoch
    assert_eq!(format_date("%s", nanos), "1");
    assert_eq!(format_date("%%", nanos), "%");
    assert_eq!(format_date("%N", nanos), "000000000");
}

// The command

#[test]
fn date_completes_immediately() {
    // Use 2024-01-01 00:00:00 UTC in nanoseconds
    let now = 1704067200_000_000_000;
    let (ctx, stdout, _stderr) = make_ctx(vec!["date"], now);

    let result = run(ctx);

    assert_eq!(result.code, 0);

    // Verify output contains a valid date format
    let output = String::from_utf8(stdout.get_buffer().unwrap()).unwrap();
    // Should be in format "YYYY-MM-DD HH:MM:SS"
    assert!(output.contains('-'), "output should contain date: {output}");
}

#[test]
fn date_custom_format() {
    // Use 2024-01-01 00:00:00 UTC in nanoseconds
    let now = 1704067200_000_000_000;
    let (ctx, stdout, _stderr) = make_ctx(vec!["date", "+%Y"], now);

    let result = run(ctx);

    assert_eq!(result.code, 0);

    // Output should be just the year (2024)
    let output = String::from_utf8(stdout.get_buffer().unwrap()).unwrap();
    let year: i32 = output.trim().parse().unwrap();
    assert_eq!(year, 2024, "year should be 2024: {year}");
}

#[test]
fn date_unix_timestamp() {
    // Use 2024-01-01 00:00:00 UTC in nanoseconds
    let now = 1704067200_000_000_000;
    let (ctx, stdout, _stderr) = make_ctx(vec!["date", "+%s"], now);

    let result = run(ctx);

    assert_eq!(result.code, 0);

    // Output should be the Unix timestamp we set
    let output = String::from_utf8(stdout.get_buffer().unwrap()).unwrap();
    let timestamp: u64 = output.trim().parse().unwrap();
    assert_eq!(timestamp, 1704067200, "timestamp should be 1704067200");
}

#[test]
fn date_invalid_option() {
    let now = 0;
    let (ctx, _stdout, _stderr) = make_ctx(vec!["date", "-x"], now);

    let result = run(ctx);

    assert_eq!(result.code, 1);
}

#[test]
fn date_no_host_ops_on_invalid() {
    let now = 0;
    let (ctx, _stdout, _stderr) = make_ctx(vec!["date", "--invalid"], now);

    let result = run(ctx);

    // Run should complete immediately without blocking

    assert_eq!(result.code, 1);
}

// Additional unit tests for format_date edge cases

#[test]
fn format_all_specifiers() {
    // 2024-07-15 14:40:45.123456789 UTC
    // Unix timestamp: 1721054445 seconds
    let secs = 1721054445u64;
    let nanos = secs * 1_000_000_000 + 123_456_789;

    assert_eq!(format_date("%Y", nanos), "2024");
    assert_eq!(format_date("%m", nanos), "07");
    assert_eq!(format_date("%d", nanos), "15");
    assert_eq!(format_date("%H", nanos), "14");
    assert_eq!(format_date("%M", nanos), "40");
    assert_eq!(format_date("%S", nanos), "45");
    assert_eq!(format_date("%s", nanos), "1721054445");
    assert_eq!(format_date("%N", nanos), "123456789");
    assert_eq!(format_date("%%", nanos), "%");
}

#[test]
fn format_nanoseconds_nonzero() {
    // Test %N with various nanosecond values
    let base_secs = 1704067200u64 * 1_000_000_000; // 2024-01-01 00:00:00

    // Small nanoseconds (should be zero-padded to 9 digits)
    assert_eq!(format_date("%N", base_secs + 1), "000000001");
    assert_eq!(format_date("%N", base_secs + 123), "000000123");
    assert_eq!(format_date("%N", base_secs + 1_000_000), "001000000");
    assert_eq!(format_date("%N", base_secs + 999_999_999), "999999999");
}

#[test]
fn date_format_unknown_specifier() {
    // Unknown specifiers should preserve the % but not consume the character
    let nanos = 0u64;
    assert_eq!(format_date("%x", nanos), "%x");
    assert_eq!(format_date("%z", nanos), "%z");
    assert_eq!(format_date("%1", nanos), "%1");
    assert_eq!(format_date("%!", nanos), "%!");
}

#[test]
fn date_format_trailing_percent() {
    // Trailing % should be preserved
    let nanos = 0u64;
    assert_eq!(format_date("test%", nanos), "test%");
    assert_eq!(format_date("%", nanos), "%");
}

#[test]
fn format_empty_string() {
    let nanos = 0u64;
    assert_eq!(format_date("", nanos), "");
}

#[test]
fn format_no_specifiers() {
    let nanos = 0u64;
    assert_eq!(format_date("hello world", nanos), "hello world");
}

#[test]
fn format_mixed_specifiers_and_literals() {
    // 2024-01-01 00:00:00 UTC
    let nanos = 1704067200_000_000_000u64;
    assert_eq!(
        format_date("Year: %Y, Month: %m, Day: %d", nanos),
        "Year: 2024, Month: 01, Day: 01"
    );
    assert_eq!(
        format_date("100%% complete at %H:%M:%S", nanos),
        "100% complete at 00:00:00"
    );
}

#[test]
fn format_consecutive_specifiers() {
    let nanos = 1704067200_000_000_000u64; // 2024-01-01 00:00:00
    assert_eq!(format_date("%Y%m%d", nanos), "20240101");
    assert_eq!(format_date("%H%M%S", nanos), "000000");
    assert_eq!(format_date("%%%%", nanos), "%%"); // Two literal percents
}

#[test]
fn format_leap_day() {
    // 2024-02-29 12:00:00 UTC (leap day)
    // Unix timestamp: 1709208000 seconds
    let nanos = 1709208000_000_000_000u64;
    assert_eq!(format_date("%Y-%m-%d", nanos), "2024-02-29");
}

#[test]
fn format_end_of_year() {
    // 2024-12-31 23:59:59 UTC
    // Unix timestamp: 1735689599 seconds
    let nanos = 1735689599_000_000_000u64;
    assert_eq!(format_date("%Y-%m-%d", nanos), "2024-12-31");
    assert_eq!(format_date("%H:%M:%S", nanos), "23:59:59");
}

#[test]
fn format_various_months() {
    // Test each month to verify correct day-of-month handling
    // Using noon on the 15th of each month in 2024

    // 2024-03-15 12:00:00 UTC = 1710504000
    assert_eq!(
        format_date("%Y-%m-%d", 1710504000_000_000_000u64),
        "2024-03-15"
    );

    // 2024-06-15 12:00:00 UTC = 1718452800
    assert_eq!(
        format_date("%Y-%m-%d", 1718452800_000_000_000u64),
        "2024-06-15"
    );

    // 2024-09-15 12:00:00 UTC = 1726401600
    assert_eq!(
        format_date("%Y-%m-%d", 1726401600_000_000_000u64),
        "2024-09-15"
    );

    // 2024-11-15 12:00:00 UTC = 1731672000
    assert_eq!(
        format_date("%Y-%m-%d", 1731672000_000_000_000u64),
        "2024-11-15"
    );
}

// Additional leap year tests

#[test]
fn leap_year_comprehensive() {
    // Century years not divisible by 400 are NOT leap years
    assert!(!is_leap_year(1700));
    assert!(!is_leap_year(1800));
    assert!(!is_leap_year(2100));
    assert!(!is_leap_year(2200));
    assert!(!is_leap_year(2300));

    // Century years divisible by 400 ARE leap years
    assert!(is_leap_year(1600));
    assert!(is_leap_year(2000));
    assert!(is_leap_year(2400));

    // Regular divisible by 4 years ARE leap years
    assert!(is_leap_year(2004));
    assert!(is_leap_year(2008));
    assert!(is_leap_year(2012));
    assert!(is_leap_year(2016));
    assert!(is_leap_year(2020));

    // Years not divisible by 4 are NOT leap years
    assert!(!is_leap_year(2001));
    assert!(!is_leap_year(2002));
    assert!(!is_leap_year(2003));
    assert!(!is_leap_year(2019));
    assert!(!is_leap_year(2021));
}

// Additional integration tests

#[test]
fn date_empty_format() {
    // `date +` should produce empty output (just newline)
    let now = 1704067200_000_000_000;
    let (ctx, stdout, _stderr) = make_ctx(vec!["date", "+"], now);

    let result = run(ctx);

    assert_eq!(result.code, 0);

    let output = String::from_utf8(stdout.get_buffer().unwrap()).unwrap();
    // Should just be a newline (from println)
    assert_eq!(output, "\n");
}

#[test]
fn date_invalid_option_error_message() {
    let now = 0;
    let (ctx, _stdout, stderr) = make_ctx(vec!["date", "-x"], now);

    let result = run(ctx);

    assert_eq!(result.code, 1);

    let error = String::from_utf8(stderr.get_buffer().unwrap()).unwrap();
    assert!(
        error.contains("date: invalid option -- '-x'"),
        "error message should mention invalid option: {error}"
    );
}

#[test]
fn date_default_format_output() {
    // 2024-07-15 14:40:45 UTC
    let nanos = 1721054445_000_000_000u64;
    let now = nanos;
    let (ctx, stdout, _stderr) = make_ctx(vec!["date"], now);

    let result = run(ctx);

    assert_eq!(result.code, 0);

    let output = String::from_utf8(stdout.get_buffer().unwrap()).unwrap();
    assert_eq!(output.trim(), "2024-07-15 14:40:45");
}

#[test]
fn date_complex_format() {
    // 2024-03-14 09:26:53 UTC (approximate Pi Day + Time)
    let nanos = 1710408413_000_000_000u64;
    let now = nanos;
    let (ctx, stdout, _stderr) = make_ctx(
        vec![
            "date",
            "+Today is %Y-%m-%d and time is %H:%M:%S (epoch: %s)",
        ], now);

    let result = run(ctx);

    assert_eq!(result.code, 0);

    let output = String::from_utf8(stdout.get_buffer().unwrap()).unwrap();
    assert_eq!(
        output.trim(),
        "Today is 2024-03-14 and time is 09:26:53 (epoch: 1710408413)"
    );
}

#[test]
fn date_nanoseconds_format() {
    // 2024-01-01 00:00:00.123456789 UTC
    let nanos = 1704067200_000_000_000u64 + 123_456_789;
    let now = nanos;
    let (ctx, stdout, _stderr) =
        make_ctx(vec!["date", "+%s.%N"], now);

    let result = run(ctx);

    assert_eq!(result.code, 0);

    let output = String::from_utf8(stdout.get_buffer().unwrap()).unwrap();
    assert_eq!(output.trim(), "1704067200.123456789");
}

#[test]
fn date_multiple_percent_literals() {
    let now = 0;
    let (ctx, stdout, _stderr) =
        make_ctx(vec!["date", "+100%% done %%%% end"], now);

    let result = run(ctx);

    assert_eq!(result.code, 0);

    let output = String::from_utf8(stdout.get_buffer().unwrap()).unwrap();
    assert_eq!(output.trim(), "100% done %% end");
}
