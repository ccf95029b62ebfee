//! sleep.
use std::time::Duration;

use amla_sandbox_shell::commands::sleep::{self, split_interval, Span};
use amla_sandbox_shell::commands::{Said, Start};

fn parse_duration(s: &str) -> Option<Duration> {
    let parts = split_interval(s);
    if parts.is_empty() {
        return None;
    }
    let mut total = Duration::ZERO;
    for (number, unit) in parts {
        let value: f64 = number.parse().ok()?;
        if value < 0.0 || !value.is_finite() {
            return None;
        }
        total += Duration::from_secs_f64(value * f64::from(unit));
    }
    Some(total)
}

/// How long a command line sleeps, or what it says.
fn run(argv: Vec<&str>) -> Result<Duration, Said> {
    let argv: Vec<String> = argv.into_iter().map(String::from).collect();
    let spans: Vec<Option<Span>> = argv
        .iter()
        .skip(1)
        .map(|s| parse_duration(s))
        .map(|d| d.map(|d| Span { secs: d.as_secs(), nanos: d.subsec_nanos() }))
        .collect();
    match sleep::run(&argv, &spans) {
        Start::Done(said) => Err(said),
        Start::Go(span) => Ok(Duration::new(span.secs, span.nanos)),
    }
}

#[test]
fn parse_seconds() {
    assert_eq!(parse_duration("5"), Some(Duration::from_secs(5)));
    assert_eq!(parse_duration("5s"), Some(Duration::from_secs(5)));
    assert_eq!(parse_duration("0.5"), Some(Duration::from_millis(500)));
    assert_eq!(parse_duration("0.5s"), Some(Duration::from_millis(500)));
}

#[test]
fn parse_minutes() {
    assert_eq!(parse_duration("1m"), Some(Duration::from_mins(1)));
    assert_eq!(parse_duration("2m"), Some(Duration::from_mins(2)));
    assert_eq!(parse_duration("0.5m"), Some(Duration::from_secs(30)));
}

#[test]
fn parse_hours() {
    assert_eq!(parse_duration("1h"), Some(Duration::from_hours(1)));
    assert_eq!(parse_duration("2h"), Some(Duration::from_hours(2)));
}

#[test]
fn parse_days() {
    assert_eq!(parse_duration("1d"), Some(Duration::from_hours(24)));
}

#[test]
fn parse_invalid() {
    assert_eq!(parse_duration(""), None);
    assert_eq!(parse_duration("abc"), None);
    assert_eq!(parse_duration("-5"), None);
}

#[test]
fn parse_fractional_all_units() {
    assert_eq!(parse_duration("1.5s"), Some(Duration::from_millis(1500)));
    assert_eq!(parse_duration("1.5m"), Some(Duration::from_secs(90)));
    assert_eq!(parse_duration("1.5h"), Some(Duration::from_mins(90)));
    assert_eq!(parse_duration("1.5d"), Some(Duration::from_hours(36)));
}

#[test]
fn parse_zero() {
    assert_eq!(parse_duration("0"), Some(Duration::ZERO));
    assert_eq!(parse_duration("0s"), Some(Duration::ZERO));
    assert_eq!(parse_duration("0m"), Some(Duration::ZERO));
}

#[test]
fn parse_whitespace() {
    assert_eq!(parse_duration("  5  "), Some(Duration::from_secs(5)));
    assert_eq!(parse_duration("  5s  "), Some(Duration::from_secs(5)));
}

#[test]
fn parse_large_values() {
    assert_eq!(parse_duration("86400"), Some(Duration::from_hours(24)));
    assert_eq!(parse_duration("365d"), Some(Duration::from_hours(8760)));
}

#[test]
fn parse_very_small() {
    assert_eq!(parse_duration("0.001"), Some(Duration::from_millis(1)));
    assert_eq!(parse_duration("0.0001"), Some(Duration::from_micros(100)));
}

#[test]
fn parse_infinity_nan() {
    assert_eq!(parse_duration("inf"), None);
    assert_eq!(parse_duration("NaN"), None);
}

// The command

#[test]
fn sleep_missing_operand() {
    let said = run(vec!["sleep"]).unwrap_err();
    assert_eq!(said.code, 1);
    assert_eq!(said.err, "sleep: missing operand\n");
}

#[test]
fn sleep_invalid_duration() {
    let said = run(vec!["sleep", "abc"]).unwrap_err();
    assert_eq!(said.code, 1);
    assert_eq!(said.err, "sleep: invalid time interval 'abc'\n");
}

#[test]
fn sleep_negative_duration() {
    assert_eq!(run(vec!["sleep", "-5"]).unwrap_err().code, 1);
}

#[test]
fn sleep_zero() {
    assert_eq!(run(vec!["sleep", "0"]).unwrap(), Duration::ZERO);
}

#[test]
fn sleep_one_second() {
    assert_eq!(run(vec!["sleep", "1"]).unwrap(), Duration::from_secs(1));
}

#[test]
fn sleep_fractional_seconds() {
    assert_eq!(run(vec!["sleep", "0.5"]).unwrap(), Duration::from_millis(500));
}

#[test]
fn sleep_with_suffix() {
    assert_eq!(run(vec!["sleep", "1m"]).unwrap(), Duration::from_secs(60));
}

#[test]
fn sleep_multiple_durations() {
    // sleep 1 2 should sleep for 3 seconds total
    assert_eq!(run(vec!["sleep", "1", "2"]).unwrap(), Duration::from_secs(3));
}

#[test]
fn sleep_mixed_units() {
    // sleep 1h 30m should sleep for 5400 seconds
    assert_eq!(run(vec!["sleep", "1h", "30m"]).unwrap(), Duration::from_secs(5400));
}

#[test]
fn sleep_partial_invalid() {
    // If any duration is invalid, should fail
    let said = run(vec!["sleep", "1", "abc", "2"]).unwrap_err();
    assert_eq!(said.code, 1);
    assert_eq!(said.err, "sleep: invalid time interval 'abc'\n");
}

#[test]
fn sleep_no_host_ops_on_error() {
    // Invalid args should fail without sleeping
    assert!(run(vec!["sleep", "invalid"]).is_err(), "should not block on invalid args");
}

#[test]
fn parts_of_a_second_are_carried() {
    let total = run(vec!["sleep", "0.6", "0.6", "1.9"]).unwrap();
    assert_eq!(total, Duration::from_millis(3100));
}

#[test]
fn an_interval_is_parted_at_its_suffix() {
    assert_eq!(split_interval(" 2h "), vec![("2".to_string(), 3600)]);
    assert_eq!(split_interval("7x"), vec![("7x".to_string(), 1)]);
    assert_eq!(split_interval("d"), vec![(String::new(), 86400)]);
    assert_eq!(split_interval(" \t"), vec![]);
}

#[test]
fn an_interval_can_have_several_parts() {
    let parts = vec![("1".to_string(), 3600), ("30".to_string(), 60)];
    assert_eq!(split_interval("1h30m"), parts);
    assert_eq!(parse_duration("1h30m"), Some(Duration::from_secs(5400)));
    assert_eq!(parse_duration("1m30"), Some(Duration::from_secs(90)));
    assert_eq!(parse_duration("1d2h3m4s"), Some(Duration::from_secs(93_784)));
    assert_eq!(parse_duration("1hm"), None);
}
