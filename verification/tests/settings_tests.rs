use wordrember::settings::{setting_flag, setting_int};

#[test]
fn integer_settings_read_like_parse() {
    for t in [
        "5", "0", "-7", "+3", " 12 ", "\t42\n", "007", "-0", "2147483647", "-2147483648",
        "2147483648", "-2147483649", "99999999999999999999", "", " ", "-", "+", "1.5", "1e3",
        "5a", "a5", "--1", "+-1", "1 2", "٣",
    ] {
        assert_eq!(setting_int(t), t.trim().parse::<i32>().ok(), "{:?}", t);
    }
}

#[test]
fn integer_setting_values() {
    assert_eq!(setting_int("3"), Some(3));
    assert_eq!(setting_int(" -12\r\n"), Some(-12));
    assert_eq!(setting_int("-2147483648"), Some(i32::MIN));
    assert_eq!(setting_int("2147483648"), None);
    assert_eq!(setting_int("three"), None);
}

#[test]
fn flag_settings() {
    assert!(setting_flag("1"));
    assert!(setting_flag(" 1 "));
    assert!(setting_flag("+01"));
    assert!(!setting_flag("0"));
    assert!(!setting_flag("true"));
    assert!(!setting_flag(""));
    assert!(!setting_flag("2"));
}
