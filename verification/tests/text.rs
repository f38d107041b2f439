use ruk::seek::{find_char, find_crlf, find_last_char};
use ruk::text::{decimal_text, parse_unsigned, to_chars, trim_bounds, white_space};

#[test]
fn white_space_is_that_of_unicode() {
    for code in 0..=0x10ffffu32 {
        if let Some(c) = char::from_u32(code) {
            assert_eq!(white_space(c), c.is_whitespace(), "{:x}", code);
        }
    }
}

#[test]
fn trimming_is_that_of_text() {
    for text in ["", " ", "a", " a ", "\u{3000}a b\n", "\t\r\n", "x\u{85}"] {
        let chars = to_chars(text);
        let (from, to) = trim_bounds(&chars, 0, chars.len());
        let trimmed: String = chars[from..to].iter().collect();
        assert_eq!(trimmed, text.trim());
    }
}

#[test]
fn numbers_are_those_of_text() {
    for text in [
        "", "+", "-", "0", "+0", "-0", "007", "65535", "65536", "99999999999999999999999", "12a",
        " 1", "1 ", "++1", "1_0", "ff", "FF", "fg", "+ff", "\u{0661}",
    ] {
        let chars = to_chars(text);
        let len = chars.len();
        assert_eq!(
            parse_unsigned(&chars, 0, len, 10, u16::MAX as usize),
            text.parse::<u16>().ok().map(usize::from),
            "{:?}",
            text
        );
        assert_eq!(
            parse_unsigned(&chars, 0, len, 16, usize::MAX),
            usize::from_str_radix(text, 16).ok(),
            "{:?}",
            text
        );
    }
}

#[test]
fn decimal_reads_back() {
    for n in [0u64, 7, 10, 65535, 1_000_000, u64::MAX] {
        let text = decimal_text(n);
        assert_eq!(text, n.to_string());
        let chars = to_chars(&text);
        assert_eq!(parse_unsigned(&chars, 0, chars.len(), 10, usize::MAX), Some(n as usize));
    }
}

#[test]
fn places_are_found() {
    assert_eq!(find_crlf(b"ab\r\ncd\r\n", 0, 8), Some(2));
    assert_eq!(find_crlf(b"ab\r\ncd\r\n", 3, 8), Some(3));
    assert_eq!(find_crlf(b"ab\r\ncd\r\n", 3, 7), None);
    assert_eq!(find_crlf(b"\r\r\n", 0, 3), Some(1));
    let chars = to_chars("a:b:c");
    assert_eq!(find_char(&chars, 0, 5, ':'), Some(1));
    assert_eq!(find_char(&chars, 2, 5, ':'), Some(3));
    assert_eq!(find_last_char(&chars, 0, 5, ':'), Some(3));
    assert_eq!(find_last_char(&chars, 0, 3, ':'), Some(1));
    assert_eq!(find_last_char(&chars, 4, 5, ':'), None);
}
