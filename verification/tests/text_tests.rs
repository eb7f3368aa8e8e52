use wordrember::clock::{chrono_lite_now, timestamp_text};
use wordrember::text::{
    chars_of, decimal_string, find_char, less_text, push_signed_decimal, same_text, string_of_range,
    trim_bounds, white_space,
};

#[test]
fn chars_and_ranges() {
    let v = chars_of("héllo");
    assert_eq!(v, vec!['h', 'é', 'l', 'l', 'o']);
    assert_eq!(string_of_range(&v, 1, 4), "éll");
    assert_eq!(string_of_range(&v, 2, 2), "");
}

#[test]
fn find_char_gives_first_or_end() {
    let v = chars_of("a,b,c");
    assert_eq!(find_char(&v, 0, 5, ','), 1);
    assert_eq!(find_char(&v, 2, 5, ','), 3);
    assert_eq!(find_char(&v, 4, 5, ','), 5);
}

#[test]
fn trimming_bounds() {
    let v = chars_of("  \"ab\" \t");
    assert_eq!(trim_bounds(&v, 0, v.len(), false), (2, 6));
    assert_eq!(trim_bounds(&v, 2, 6, true), (3, 5));
    let blank = chars_of("   ");
    let (a, b) = trim_bounds(&blank, 0, 3, false);
    assert_eq!(a, b);
}

#[test]
fn white_space_matches_std() {
    for c in ['\t', '\n', '\u{0B}', '\u{0C}', '\r', ' ', '\u{85}', '\u{A0}', '\u{1680}', '\u{2000}', '\u{200A}', '\u{2028}', '\u{2029}', '\u{202F}', '\u{205F}', '\u{3000}', 'a', '\u{200B}', '\u{FEFF}', '\u{180E}'] {
        assert_eq!(white_space(c), c.is_whitespace(), "{:?}", c);
    }
}

#[test]
fn ordering_is_code_point_order() {
    assert!(less_text("Zebra", "apple"));
    assert!(less_text("ap", "apple"));
    assert!(!less_text("apple", "ap"));
    assert!(!less_text("same", "same"));
    assert!(less_text("", "a"));
    assert!(less_text("z", "é"));
    assert!(same_text("é", "é"));
    assert!(!same_text("e", "é"));
}

#[test]
fn decimals() {
    assert_eq!(decimal_string(0), "0");
    assert_eq!(decimal_string(7), "7");
    assert_eq!(decimal_string(1700000000), "1700000000");
    assert_eq!(decimal_string(u64::MAX), u64::MAX.to_string());
    let mut s = String::from("x");
    push_signed_decimal(&mut s, i64::MIN);
    assert_eq!(s, format!("x{}", i64::MIN));
    let mut t = String::new();
    push_signed_decimal(&mut t, -5);
    assert_eq!(t, "-5");
}

#[test]
fn clock_gives_seconds_since_epoch() {
    let now = chrono_lite_now();
    let secs: u64 = now.parse().unwrap();
    assert!(secs > 1_600_000_000);
    assert_eq!(secs.to_string(), now);
}

#[test]
fn timestamp_text_of_clock_readings() {
    assert_eq!(timestamp_text(Some(1700000000)), "1700000000");
    assert_eq!(timestamp_text(Some(0)), "0");
    assert_eq!(timestamp_text(None), "0");
    assert_eq!(timestamp_text(Some(u64::MAX)), "18446744073709551615");
}
