use csv_to_duckdb::text::{
    append_decimal, append_padded, append_signed_decimal, append_zero_padded, begins_with, blank,
    characters, join, read_digits, read_i64, same_text, split_last, strip_suffix, trim,
    white_space, why_no_i64, IntegerFault,
};

#[test]
fn decimal_numbers_are_written_out() {
    for n in [0u64, 7, 10, 99, 250_000, u64::MAX] {
        let mut text = String::from("n=");
        append_decimal(&mut text, n);
        assert_eq!(text, format!("n={}", n));
    }
}

#[test]
fn signed_numbers_are_written_out() {
    for n in [0i64, -1, 42, i64::MIN, i64::MAX] {
        let mut text = String::new();
        append_signed_decimal(&mut text, n);
        assert_eq!(text, format!("{}", n));
    }
}

#[test]
fn numbers_are_padded() {
    for n in [0u64, 5, 123, 1_000_000_000_000, u64::MAX] {
        let mut text = String::new();
        append_padded(&mut text, n, 12, ' ');
        assert_eq!(text, format!("{:>12}", n));
    }
    for n in [0i32, 7, 2024, -7, -12345, i32::MIN, i32::MAX] {
        let mut text = String::new();
        append_zero_padded(&mut text, n, 4);
        assert_eq!(text, format!("{:04}", n));
    }
}

#[test]
fn characters_of_a_text() {
    assert_eq!(characters("a\u{e9}\u{1f600}"), vec!['a', '\u{e9}', '\u{1f600}']);
    assert!(characters("").is_empty());
}

#[test]
fn integers_are_read() {
    let samples = [
        "0", "7", "+7", "-7", "-0", "007", "", "+", "-", " 7", "7 ", "1e3", "0x1", "--1", "+-1",
        "9223372036854775807", "9223372036854775808", "-9223372036854775808",
        "-9223372036854775809", "99999999999999999999999999999999", "2147483647", "2147483648",
        "-2147483648", "-2147483649", "4294967295", "4294967296", "\u{664}",
    ];
    for s in samples {
        assert_eq!(read_i64(s), s.parse::<i64>().ok(), "{}", s);
        if let Err(e) = s.parse::<i64>() {
            assert_eq!(why_no_i64(s).message(), format!("{}", e), "{}", s);
        }
    }
}

#[test]
fn why_a_text_is_no_integer() {
    assert_eq!(why_no_i64(""), IntegerFault::Empty);
    assert_eq!(why_no_i64("-"), IntegerFault::InvalidDigit);
    assert_eq!(why_no_i64("9223372036854775808"), IntegerFault::TooLarge);
    assert_eq!(why_no_i64("-9223372036854775809"), IntegerFault::TooSmall);
    let samples = [
        "99999999999999999999x", "9223372036854775807x", "-99999999999999999999x", "x9",
        "+9223372036854775808", "-9223372036854775808x", "12 34", "1.5", "+x", "-x", "00000000000000000000009x",
        "922337203685477580x", "9223372036854775810", "\u{664}1",
    ];
    for s in samples {
        let expected = s.parse::<i64>().unwrap_err();
        assert_eq!(why_no_i64(s).message(), format!("{}", expected), "{}", s);
    }
}

#[test]
fn digits_of_a_fixed_width_are_read() {
    assert_eq!(read_digits("2024", 4), Some(2024));
    assert_eq!(read_digits("0007", 4), Some(7));
    for s in ["", "1", "+1", "-1", "001", "1x", " 1"] {
        assert_eq!(read_digits(s, 2), None, "{}", s);
    }
}

#[test]
fn white_space_is_that_of_unicode() {
    for code in 0..0x11_0000u32 {
        if let Some(c) = char::from_u32(code) {
            assert_eq!(white_space(c), c.is_whitespace());
        }
    }
}

#[test]
fn texts_are_trimmed() {
    for s in ["", " ", "a", " a", "a ", "\t a b \r\n", "\u{3000}x\u{a0}", "\u{200b}x"] {
        assert_eq!(trim(s), s.trim());
        assert_eq!(blank(s), s.trim().is_empty());
    }
}

#[test]
fn texts_are_taken_apart() {
    assert_eq!(split_last("a-b-c", '-'), Some(("a-b", "c")));
    assert_eq!(split_last("-", '-'), Some(("", "")));
    assert_eq!(split_last("abc", '-'), None);
    assert_eq!(strip_suffix("x.csv", ".csv"), Some("x"));
    assert_eq!(strip_suffix(".csv", ".csv"), Some(""));
    assert_eq!(strip_suffix("x.CSV", ".csv"), None);
    assert_eq!(strip_suffix("sv", ".csv"), None);
    assert!(begins_with("--dir=x", "--dir="));
    assert!(!begins_with("--di", "--dir="));
    assert!(same_text("\u{e9}", "\u{e9}"));
    assert!(!same_text("a", "ab"));
}

#[test]
fn texts_are_joined() {
    let none: Vec<String> = Vec::new();
    assert_eq!(join(&none, ", "), "");
    assert_eq!(join(&vec!["a".to_string()], ", "), "a");
    assert_eq!(join(&vec!["a".to_string(), "".to_string(), "b".to_string()], ", "), "a, , b");
}
