use i3_awm::decimal::{format_number, format_signed, parse_i32, parse_u32};
use i3_awm::names::{is_before, NameSet};
use i3_awm::text::{find, is_whitespace, lines, starts_with, words, CharClass};

#[test]
fn white_space_is_that_of_unicode() {
    for c in '\u{0}'..=char::MAX {
        assert_eq!(is_whitespace(c), c.is_whitespace());
    }
}

#[test]
fn lines_end_at_line_feeds() {
    for text in ["", "\n", "a", "a\n", "a\n\nb", "a\r\nb\r", "\r\n", "a\rb\n", "\n\r\n", "é\nü"] {
        let expected: Vec<&str> = text.lines().collect();
        assert_eq!(lines(text), expected);
    }
}

#[test]
fn words_stand_between_white_space() {
    for text in ["", "  ", "a", " a\tb ", "a\u{a0}b\u{3000}c", "ab  cd\n", "é ü"] {
        let expected: Vec<&str> = text.split_whitespace().collect();
        assert_eq!(words(text), expected);
    }
}

#[test]
fn searching() {
    assert_eq!(find("12x3", CharClass::Cross), 2);
    assert_eq!(find("123", CharClass::Cross), 3);
    assert_eq!(find("é+", CharClass::Sign), 1);
    assert_eq!(find("12i", CharClass::NonDigit), 2);
    assert!(starts_with("Screen 0", "Screen "));
    assert!(!starts_with("Scr", "Screen "));
}

#[test]
fn numbers_are_read_as_numerals() {
    for text in [
        "", "+", "-", "0", "007", "+5", "-5", "-0", "++1", "+-1", "1 ", "12a", "2147483647",
        "2147483648", "-2147483648", "-2147483649", "4294967295", "4294967296",
        "99999999999999999999", "99999999999999999999x", "\u{665}",
    ] {
        assert_eq!(parse_u32(text), text.parse::<u32>().ok());
        assert_eq!(parse_i32(text), text.parse::<i32>().ok());
    }
}

#[test]
fn numbers_are_written_and_read_back() {
    for n in [0u32, 7, 10, 99, 1080, 4294967295] {
        assert_eq!(format_number(n.into()), format!("{n}"));
        assert_eq!(parse_u32(&format_number(n.into())), Some(n));
    }
    for n in [0i32, -1, 1280, -2147483648, 2147483647] {
        assert_eq!(format_signed(n.into()), format!("{n}"));
        assert_eq!(parse_i32(&format_signed(n.into())), Some(n));
    }
}

#[test]
fn names_are_ordered_as_strings_are() {
    let names = ["", "DP-1", "DP-10", "DP-2", "HDMI-1", "eDP-1", "é", "\u{10000}", "\u{ffff}"];
    for a in names {
        for b in names {
            assert_eq!(is_before(a, b), a < b);
        }
    }
}

#[test]
fn name_sets() {
    let mut a = NameSet::new();
    let mut b = NameSet::new();
    a.insert("DP-1");
    a.insert("DP-2");
    a.insert("DP-1");
    b.insert("DP-2");
    b.insert("HDMI-1");
    assert_eq!(a.len(), 2);
    assert_eq!(a.difference(&b), vec!["DP-1".to_string()]);
    assert_eq!(b.difference(&a), vec!["HDMI-1".to_string()]);
    assert!(a.difference(&a).is_empty());
}
