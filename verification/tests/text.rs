use rscc::literal::{
    check_number, check_value_literal, is_digit_byte, is_sign_byte, is_special_word, lower_byte,
    parse_location, scan_digits,
};
use rscc::text::{
    find_line_end, find_line_start, find_token_end, find_token_start, find_trimmed_end,
    is_blank_byte, slice, slice_text,
};

#[test]
fn lines_end_at_line_feeds() {
    let source = b"ab\ncd\n\nef";
    assert_eq!(find_line_end(source, 0), 2);
    assert_eq!(find_line_end(source, 2), 2);
    assert_eq!(find_line_end(source, 3), 5);
    assert_eq!(find_line_end(source, 6), 6);
    assert_eq!(find_line_end(source, 7), 9);
    assert_eq!(find_line_end(source, 9), 9);
    assert_eq!(find_line_start(source, 0), 0);
    assert_eq!(find_line_start(source, 2), 0);
    assert_eq!(find_line_start(source, 3), 3);
    assert_eq!(find_line_start(source, 5), 3);
    assert_eq!(find_line_start(source, 6), 6);
    assert_eq!(find_line_start(source, 9), 7);
    assert_eq!(find_line_end(b"", 0), 0);
    assert_eq!(find_line_start(b"", 0), 0);
}

#[test]
fn tokens_are_runs_without_white_space() {
    let line = b"  LDA \t 12\r";
    assert_eq!(find_token_start(line, 0, line.len()), 2);
    assert_eq!(find_token_end(line, 2, line.len()), 5);
    assert_eq!(find_token_start(line, 5, line.len()), 8);
    assert_eq!(find_token_end(line, 8, line.len()), 10);
    assert_eq!(find_token_start(line, 10, line.len()), 11);
    assert_eq!(find_token_end(line, 11, line.len()), 11);
    assert_eq!(find_token_start(line, 0, 2), 2);
    assert_eq!(find_trimmed_end(line, 0, line.len()), 10);
    assert_eq!(find_trimmed_end(line, 0, 2), 0);
    assert_eq!(find_trimmed_end(line, 2, 5), 5);
}

#[test]
fn white_space_is_told_from_the_rest() {
    for b in [b' ', b'\t', 11u8, 12u8, b'\r'] {
        assert!(is_blank_byte(b));
    }
    for b in [b'\n', b'a', b'0', b'#', 0u8, 0xa0u8, 0xc2u8] {
        assert!(!is_blank_byte(b));
    }
}

#[test]
fn text_is_cut_at_bytes() {
    let source = "LDC é 5";
    assert_eq!(slice(source, 0, 3), "LDC");
    assert_eq!(slice(source, 4, 6), "é");
    assert_eq!(slice_text(source, 7, 8), "5");
    assert_eq!(slice_text(source, 8, 8), "");
    assert_eq!(slice(source, 0, 8), source);
}

#[test]
fn bytes_are_classified() {
    assert!(is_digit_byte(b'0') && is_digit_byte(b'9'));
    assert!(!is_digit_byte(b'/') && !is_digit_byte(b':'));
    assert!(is_sign_byte(b'+') && is_sign_byte(b'-') && !is_sign_byte(b'*'));
    assert_eq!(lower_byte(b'A'), b'a');
    assert_eq!(lower_byte(b'Z'), b'z');
    assert_eq!(lower_byte(b'a'), b'a');
    assert_eq!(lower_byte(b'@'), b'@');
    assert_eq!(lower_byte(b'['), b'[');
}

#[test]
fn locations_are_read_from_tokens() {
    assert_eq!(parse_location(b"0"), Some(0));
    assert_eq!(parse_location(b"+42"), Some(42));
    assert_eq!(parse_location(b"4294967295"), Some(u32::MAX));
    assert_eq!(parse_location(b"4294967296"), None);
    assert_eq!(parse_location(b""), None);
    assert_eq!(parse_location(b"+"), None);
    assert_eq!(parse_location(b"4 2"), None);
}

#[test]
fn numbers_and_words_are_told_apart() {
    assert_eq!(scan_digits(b"123a", 0), 3);
    assert_eq!(scan_digits(b"123a", 3), 3);
    assert_eq!(scan_digits(b"123", 1), 3);
    assert!(check_number(b"1.5e-3"));
    assert!(check_number(b"5."));
    assert!(!check_number(b"-5"));
    assert!(!check_number(b""));
    assert!(!check_number(b"inf"));
    assert!(is_special_word(b"Inf") && is_special_word(b"NAN") && is_special_word(b"infinity"));
    assert!(!is_special_word(b"in") && !is_special_word(b"nano") && !is_special_word(b"infinite"));
    assert!(check_value_literal(b"-inf"));
    assert!(check_value_literal(b"+.5"));
    assert!(!check_value_literal(b"+-5"));
    assert!(!check_value_literal(b""));
}
