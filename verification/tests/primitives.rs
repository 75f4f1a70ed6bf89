use engine::chars::{is_white_space, nth_word, same_text, trim, trim_end, trim_start};
use engine::numbers::{append_hexadecimal, decimal_text, group_digits, parse_unsigned};
use engine::text::{contains, find_bytes, has_shape, skip_digits, stands_at};

#[test]
fn white_space_is_that_of_char() {
    // Trimming relies on knowing every white-space character there is.
    for v in 0..=0x10ffff_u32 {
        if let Some(c) = char::from_u32(v) {
            assert_eq!(is_white_space(c), c.is_whitespace(), "U+{v:04X}");
            let s = c.to_string();
            assert_eq!(trim_start(&s).is_empty(), c.is_whitespace(), "U+{v:04X}");
        }
    }
}

#[test]
fn listed_white_space() {
    let listed: Vec<u32> = (0..=0x10ffff_u32)
        .filter(|v| char::from_u32(*v).map_or(false, |c| c.is_whitespace()))
        .collect();
    let mut expected: Vec<u32> = (0x9..=0xd).collect();
    expected.extend_from_slice(&[0x20, 0x85, 0xa0, 0x1680]);
    expected.extend(0x2000..=0x200a);
    expected.extend_from_slice(&[0x2028, 0x2029, 0x202f, 0x205f, 0x3000]);
    assert_eq!(listed, expected);
}

#[test]
fn trimming_is_that_of_str() {
    for s in ["", "  ", " a ", "\u{3000}ä b\u{a0}", "x", "\ta\n\n", "é "] {
        assert_eq!(trim_start(s), s.trim_start());
        assert_eq!(trim_end(s), s.trim_end());
        assert_eq!(trim(s), s.trim());
    }
}

#[test]
fn words_are_those_of_str() {
    for s in ["", " one  two\tthree ", "ä\u{2003}ö", "single"] {
        let words: Vec<&str> = s.split_whitespace().collect();
        for n in 0..words.len() + 2 {
            assert_eq!(nth_word(s, n), words.get(n).copied());
        }
    }
}

#[test]
fn texts_are_compared_whole() {
    assert!(same_text("", ""));
    assert!(same_text("äb", "äb"));
    assert!(!same_text("ab", "abc"));
    assert!(!same_text("abc", "abd"));
}

#[test]
fn numbers_are_read_like_str_parse() {
    for s in ["0", "+7", "", "+", "++1", "-1", "00012", "1 ", "4294967295", "4294967296", "x"] {
        assert_eq!(
            parse_unsigned(s.as_bytes(), u32::MAX as u64),
            s.parse::<u32>().ok().map(u64::from),
            "text {s:?}"
        );
    }
    for s in ["18446744073709551615", "18446744073709551616", "99999999999999999999999"] {
        assert_eq!(parse_unsigned(s.as_bytes(), u64::MAX), s.parse::<u64>().ok());
    }
}

#[test]
fn numbers_are_written_like_to_string() {
    for n in [0, 7, 10, 999, 1000, 123_456_789, u64::MAX] {
        assert_eq!(decimal_text(n), n.to_string());
        assert_eq!(parse_unsigned(decimal_text(n).as_bytes(), u64::MAX), Some(n));
    }
}

#[test]
fn digits_are_grouped_in_threes() {
    assert_eq!(group_digits(0), "0");
    assert_eq!(group_digits(999), "999");
    assert_eq!(group_digits(1000), "1,000");
    assert_eq!(group_digits(12345), "12,345");
    assert_eq!(group_digits(1234567), "1,234,567");
    assert_eq!(group_digits(u64::MAX), "18,446,744,073,709,551,615");
    assert_eq!(group_digits(1234567).replace(',', ""), "1234567");
}

#[test]
fn hexadecimal_is_padded() {
    let mut s = String::from("x");
    append_hexadecimal(&mut s, 0xab, 4);
    assert_eq!(s, "x00ab");
}

#[test]
fn bytes_are_found() {
    assert_eq!(find_bytes(b"abcabc", b"bc", 0), Some(1));
    assert_eq!(find_bytes(b"abcabc", b"bc", 2), Some(4));
    assert_eq!(find_bytes(b"abcabc", b"bc", 5), None);
    assert_eq!(find_bytes(b"abc", b"", 3), Some(3));
    assert_eq!(find_bytes(b"abc", b"", 4), None);
    assert!(contains(b"abc", b"c"));
    assert!(!contains(b"abc", b"d"));
    assert!(stands_at(b"abc", b"bc", 1));
    assert!(!stands_at(b"abc", b"bc", 2));
}

#[test]
fn shapes_match_digits_and_separators() {
    assert!(has_shape(b"12:34", 0, b"dd:dd"));
    assert!(!has_shape(b"12-34", 0, b"dd:dd"));
    assert!(!has_shape(b"12:3", 0, b"dd:dd"));
    assert_eq!(skip_digits(b"a123b", 1), 4);
    assert_eq!(skip_digits(b"a123b", 0), 0);
}
