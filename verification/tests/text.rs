use tequio::text::{
    chars_of, contains_chars, decimal_text, is_whitespace_char, matches_at, parse_u32_text,
    signed_decimal_text, split, trim, trim_bounds,
};

fn chars(s: &str) -> Vec<char> {
    s.chars().collect()
}

#[test]
fn whitespace_agrees_with_std_on_every_char() {
    let mut code: u32 = 0;
    while code <= 0x10FFFF {
        if let Some(c) = char::from_u32(code) {
            assert_eq!(is_whitespace_char(c), c.is_whitespace(), "U+{:04X}", code);
        }
        code += 1;
    }
}

#[test]
fn whitespace_named_characters() {
    assert!(is_whitespace_char(' '));
    assert!(is_whitespace_char('\t'));
    assert!(is_whitespace_char('\n'));
    assert!(is_whitespace_char('\r'));
    assert!(is_whitespace_char('\u{00A0}'));
    assert!(is_whitespace_char('\u{3000}'));
    assert!(!is_whitespace_char('a'));
    assert!(!is_whitespace_char('0'));
    assert!(!is_whitespace_char('\u{200B}'));
    assert!(!is_whitespace_char('\u{FEFF}'));
}

#[test]
fn chars_of_keeps_order() {
    assert_eq!(chars_of("héllo"), vec!['h', 'é', 'l', 'l', 'o']);
    assert_eq!(chars_of(""), Vec::<char>::new());
}

#[test]
fn trim_agrees_with_std() {
    let samples = [
        "", " ", "   ", "a", " a", "a ", "  a b  ", "\t READY \r\n", "\u{3000}x\u{00A0}",
        "no space", " \n ", "x\u{200B} ", "é ", " 1234 ",
    ];
    for s in samples {
        assert_eq!(trim(s), s.trim(), "{:?}", s);
    }
}

#[test]
fn trim_bounds_give_the_trimmed_part() {
    assert_eq!(trim_bounds(&chars("  ab c ")), (2, 6));
    assert_eq!(trim_bounds(&chars("abc")), (0, 3));
    assert_eq!(trim_bounds(&chars("")), (0, 0));
    let (from, to) = trim_bounds(&chars("   "));
    assert_eq!(from, to);
}

#[test]
fn contains_agrees_with_std() {
    let hays = ["", "a", "READY", "server is READY now", "aaa", "abcabd", "é READY"];
    let needles = ["", "a", "READY", "ready", "aa", "abd", "abcabde", "Y now", "é"];
    for hay in hays {
        for needle in needles {
            assert_eq!(
                contains_chars(&chars(hay), &chars(needle)),
                hay.contains(needle),
                "{:?} in {:?}",
                needle,
                hay
            );
        }
    }
}

#[test]
fn matches_at_checks_one_offset() {
    assert!(matches_at(&chars("hello"), &chars("ell"), 1));
    assert!(!matches_at(&chars("hello"), &chars("ell"), 0));
    assert!(matches_at(&chars("hello"), &chars(""), 5));
    assert!(!matches_at(&chars("hello"), &chars(""), 6));
    assert!(!matches_at(&chars("hello"), &chars("lo"), 4));
    assert!(!matches_at(&chars("lo"), &chars("hello"), 0));
}

#[test]
fn split_agrees_with_std() {
    let samples = ["", "a", "a,b", "a,,b", ",", ",a,", " a , b ", "one\ntwo\n", "abc"];
    for s in samples {
        let expected: Vec<String> = s.split(',').map(|p| p.to_string()).collect();
        assert_eq!(split(s, ','), expected, "{:?}", s);
        let lines: Vec<String> = s.split('\n').map(|p| p.to_string()).collect();
        assert_eq!(split(s, '\n'), lines, "{:?}", s);
    }
}

#[test]
fn split_of_empty_text_is_one_empty_piece() {
    assert_eq!(split("", ','), vec![String::new()]);
}

#[test]
fn parse_u32_agrees_with_std() {
    let samples = [
        "", "0", "7", "42", "+42", "-42", "+", "-", "++1", "007", "4294967295", "4294967296",
        "99999999999999999999999", "00000000000000000000000001", "12a", "a12", " 12", "12 ",
        "1_000", "１２", "+0", "1.5",
    ];
    for s in samples {
        assert_eq!(parse_u32_text(s), s.parse::<u32>().ok(), "{:?}", s);
    }
}

#[test]
fn parse_u32_exact_values() {
    assert_eq!(parse_u32_text("4294967295"), Some(u32::MAX));
    assert_eq!(parse_u32_text("4294967296"), None);
    assert_eq!(parse_u32_text("+17"), Some(17));
    assert_eq!(parse_u32_text(""), None);
}

#[test]
fn decimal_text_agrees_with_std() {
    for n in [0u32, 1, 9, 10, 11, 99, 100, 101, 4096, 65535, 1_000_000, u32::MAX - 1, u32::MAX] {
        assert_eq!(decimal_text(n), n.to_string());
        assert_eq!(parse_u32_text(&decimal_text(n)), Some(n));
    }
}

#[test]
fn signed_decimal_text_agrees_with_std() {
    for n in [0i32, 1, -1, 7, -7, 255, -255, i32::MAX, i32::MIN, i32::MIN + 1] {
        assert_eq!(signed_decimal_text(n), n.to_string());
    }
}
