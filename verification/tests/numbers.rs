//! Numbers, their texts and their order.
use amla_sandbox_shell::commands::ls::format_human_size;
use amla_sandbox_shell::commands::time::format_time;
use amla_sandbox_shell::num::{
    parse_i32, parse_i64, parse_unsigned, parse_usize, write_decimal, write_digits, write_signed,
    zero_padded,
};
use amla_sandbox_shell::order::{order, sort_strings, Key};
use amla_sandbox_shell::path::{child_path, normalize_path, resolve};
use amla_sandbox_shell::round::{fraction_of, nearest_of, round53};
use amla_sandbox_shell::text::{
    char_is_space, last_part, split_lines, split_words, to_chars, to_text, trim_chars,
};

fn chars(s: &str) -> Vec<char> {
    s.chars().collect()
}

fn text(cs: Vec<char>) -> String {
    cs.into_iter().collect()
}

/// A row of numbers of all sizes.
fn samples() -> Vec<u64> {
    let mut all = vec![0, 1, u64::MAX];
    let mut seed: u64 = 12345;
    for i in 0..20000u32 {
        seed = seed.wrapping_mul(6364136223846793005).wrapping_add(1442695040888963407);
        all.push(seed >> (i % 64));
        all.push((seed >> (i % 64)) / 1000 * 1000 + 500);
    }
    for shift in 0..64 {
        for near in 0..5u64 {
            all.push((1u64 << shift).wrapping_add(near).wrapping_sub(2));
        }
    }
    all
}

#[test]
fn human_sizes_are_those_of_floating_point() {
    for size in samples() {
        let units = ["B", "K", "M", "G", "T"];
        let (mut value, mut unit) = (size as f64, 0);
        while value >= 1024.0 && unit < 4 {
            value /= 1024.0;
            unit += 1;
        }
        let expected = if unit == 0 {
            format!("{size:>4}B")
        } else {
            format!("{value:>4.1}{}", units[unit])
        };
        assert_eq!(format_human_size(size), expected);
    }
    assert_eq!(format_human_size(1023), "1023B");
    assert_eq!(format_human_size(1536), " 1.5K");
    assert_eq!(format_human_size(u64::MAX), "16777216.0T");
}

#[test]
fn times_are_those_of_floating_point() {
    let minutes = (1..3000u64).flat_map(|m| {
        (0..3u64).map(move |d| (m * 60_000_000_000).wrapping_add(d).wrapping_sub(1))
    });
    for nanos in samples().into_iter().chain(minutes) {
        let secs = std::time::Duration::from_nanos(nanos).as_secs_f64();
        let expected = if secs >= 60.0 {
            let mins = (secs / 60.0).floor() as u64;
            format!("{mins}m{:.3}s", secs - mins as f64 * 60.0)
        } else {
            format!("{secs:.3}s")
        };
        assert_eq!(format_time(nanos), expected);
    }
}

#[test]
fn rounding_goes_to_the_nearest_and_to_even() {
    assert_eq!(nearest_of(5, 2), 2);
    assert_eq!(nearest_of(7, 2), 4);
    assert_eq!(nearest_of(8, 3), 3);
    assert_eq!(round53(9007199254740993), 9007199254740992);
    assert_eq!(round53(9007199254740995), 9007199254740996);
    for n in samples() {
        assert_eq!(round53(u128::from(n)), n as f64 as u128);
        let (top, bottom) = fraction_of(n % 1_000_000_000, 1_000_000_000);
        let f = (n % 1_000_000_000) as f64 / 1e9;
        assert_eq!(f * bottom as f64, top as f64);
    }
}

#[test]
fn integers_are_read_as_the_language_reads_them() {
    for s in [
        "", "+", "-", "0", "-0", "+7", "007", "9223372036854775807", "9223372036854775808",
        "-9223372036854775808", "-9223372036854775809", "2147483648", "-2147483648", "1_0", " 1",
        "18446744073709551615", "18446744073709551616", "\u{661}",
    ] {
        assert_eq!(parse_i64(&chars(s)), s.parse::<i64>().ok(), "{s}");
        assert_eq!(parse_i32(&chars(s)), s.parse::<i32>().ok(), "{s}");
        assert_eq!(parse_usize(&chars(s)), s.parse::<usize>().ok(), "{s}");
        assert_eq!(parse_unsigned(&chars(s), 255), s.parse::<u8>().ok().map(u64::from), "{s}");
    }
}

#[test]
fn integers_are_written() {
    for n in samples() {
        assert_eq!(text(write_decimal(n)), n.to_string());
        assert_eq!(text(write_signed(n as i64)), (n as i64).to_string());
        assert_eq!(text(write_digits(n, 16, false)), format!("{n:x}"));
        assert_eq!(text(write_digits(n, 16, true)), format!("{n:X}"));
        assert_eq!(text(write_digits(n, 8, false)), format!("{n:o}"));
    }
    assert_eq!(zero_padded(&chars("42"), 5), "00042");
    assert_eq!(zero_padded(&chars("123456"), 5), "123456");
}

#[test]
fn written_integers_are_read_back() {
    for n in samples() {
        assert_eq!(parse_unsigned(&write_decimal(n), u64::MAX), Some(n));
        assert_eq!(parse_i64(&write_signed(n as i64)), Some(n as i64));
    }
}

#[test]
fn paths_are_made_normal() {
    assert_eq!(normalize_path("/a//b/./c/../d/"), "/a/b/d");
    assert_eq!(normalize_path("/../.."), "/");
    assert_eq!(resolve("/workspace", "x/../y"), "/workspace/y");
    assert_eq!(resolve("/workspace", "/etc/./z"), "/etc/z");
    assert_eq!(child_path("/", "a"), "/a");
    assert_eq!(child_path("/a", "b"), "/a/b");
}

#[test]
fn a_normal_path_stays_as_it_is() {
    for p in ["/", "/a", "/a/b.c/d", "/..", "//x/.././y/", ""] {
        let once = normalize_path(p);
        assert_eq!(normalize_path(&once), once);
        assert_eq!(resolve("/elsewhere", &once), once);
    }
}

#[test]
fn equal_keys_keep_their_order() {
    let keys = vec![
        Key::Number(2),
        Key::Number(1),
        Key::Number(2),
        Key::Number(-3),
        Key::Number(1),
    ];
    assert_eq!(order(&keys, false), vec![3, 1, 4, 0, 2]);
    assert_eq!(order(&keys, true), vec![0, 2, 1, 4, 3]);
    let keys = vec![Key::Text(chars("b")), Key::Text(chars("ab")), Key::Text(chars("a"))];
    assert_eq!(order(&keys, false), vec![2, 1, 0]);
}

#[test]
fn strings_are_sorted_as_the_language_sorts_them() {
    let mut seed: u32 = 1;
    let mut v: Vec<String> = Vec::new();
    for _ in 0..200 {
        let mut s = String::new();
        for _ in 0..seed % 4 {
            seed = seed.wrapping_mul(1103515245).wrapping_add(12345);
            s.push(['a', 'B', '\u{e9}', '\u{10000}', '\u{ffff}'][(seed >> 16) as usize % 5]);
        }
        seed = seed.wrapping_mul(1103515245).wrapping_add(12345) >> 1;
        v.push(s);
    }
    let sorted = sort_strings(&v);
    v.sort();
    assert_eq!(sorted, v);
}

#[test]
fn spaces_are_those_of_unicode() {
    for c in (0..0x11000u32).filter_map(char::from_u32) {
        assert_eq!(char_is_space(c), c.is_whitespace(), "{c:?}");
    }
}

#[test]
fn text_is_parted_as_the_language_parts_it() {
    for s in ["", "\n", "a\r\nb\n\n c \r", "\u{3000}x\u{85}y ", "a b  c\t\nd", "\r", "x\r\r\n"] {
        let lines: Vec<String> = split_lines(&to_chars(s)).into_iter().map(text).collect();
        assert_eq!(lines, s.lines().collect::<Vec<_>>(), "{s:?}");
        let words: Vec<String> = split_words(&to_chars(s)).into_iter().map(text).collect();
        assert_eq!(words, s.split_whitespace().collect::<Vec<_>>(), "{s:?}");
        assert_eq!(to_text(&trim_chars(&to_chars(s))), s.trim(), "{s:?}");
    }
    for p in ["a/b", "a", "/", "x/y/", ""] {
        assert_eq!(last_part(p), p.rsplit('/').next().unwrap());
    }
}
