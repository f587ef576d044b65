use sum_parser::lexeme::{find_boundary, is_ascii_digit, lex, scan_digits};
use sum_parser::numeral::parse_numeral;
use sum_parser::{IntError, LogosToken, Scanner};

#[test]
fn digits_are_the_ten_decimal_digits() {
    assert!(is_ascii_digit(b'0'));
    assert!(is_ascii_digit(b'9'));
    assert!(!is_ascii_digit(b'/'));
    assert!(!is_ascii_digit(b':'));
    assert!(!is_ascii_digit(b'+'));
}

#[test]
fn scan_digits_stops_at_the_first_byte_that_is_no_digit() {
    assert_eq!(scan_digits(b"123+4", 0), 3);
    assert_eq!(scan_digits(b"123+4", 1), 3);
    assert_eq!(scan_digits(b"123+4", 3), 3);
    assert_eq!(scan_digits(b"123+4", 4), 5);
    assert_eq!(scan_digits(b"123+4", 5), 5);
    assert_eq!(scan_digits(b"", 0), 0);
}

#[test]
fn find_boundary_passes_over_continuation_bytes() {
    let text = "a\u{e9}\u{20ac}b".as_bytes();
    assert_eq!(text.len(), 7);
    assert_eq!(find_boundary(text, 0), 0);
    assert_eq!(find_boundary(text, 1), 1);
    assert_eq!(find_boundary(text, 2), 3);
    assert_eq!(find_boundary(text, 4), 6);
    assert_eq!(find_boundary(text, 5), 6);
    assert_eq!(find_boundary(text, 7), 7);
}

#[test]
fn lex_reads_a_plus() {
    assert_eq!(lex(b"+", 0), (LogosToken::Plus, 1));
    assert_eq!(lex(b"++1", 1), (LogosToken::Plus, 2));
}

#[test]
fn lex_reads_the_longest_numeral() {
    assert_eq!(lex(b"1", 0), (LogosToken::Number, 1));
    assert_eq!(lex(b"1234+5", 0), (LogosToken::Number, 4));
    assert_eq!(lex(b"1234+5", 2), (LogosToken::Number, 4));
    assert_eq!(lex(b"-12+5", 0), (LogosToken::Number, 3));
    assert_eq!(lex(b"1-5", 1), (LogosToken::Number, 3));
    assert_eq!(lex(b"12-5", 0), (LogosToken::Number, 2));
}

#[test]
fn lex_takes_a_minus_without_a_digit_as_an_error() {
    assert_eq!(lex(b"-", 0), (LogosToken::Error, 1));
    assert_eq!(lex(b"-x", 0), (LogosToken::Error, 1));
    assert_eq!(lex(b"--1", 0), (LogosToken::Error, 1));
    assert_eq!(lex(b"-+1", 0), (LogosToken::Error, 1));
}

#[test]
fn lex_takes_a_whole_character_as_an_error() {
    assert_eq!(lex(b"x1", 0), (LogosToken::Error, 1));
    assert_eq!(lex(b" 1", 0), (LogosToken::Error, 1));
    assert_eq!(lex("\u{e9}1".as_bytes(), 0), (LogosToken::Error, 2));
    assert_eq!(lex("\u{20ac}".as_bytes(), 0), (LogosToken::Error, 3));
    assert_eq!(lex("1\u{1f600}2".as_bytes(), 1), (LogosToken::Error, 5));
}

#[test]
fn numerals_in_range_give_their_value() {
    assert_eq!(parse_numeral(b"0"), Ok(0));
    assert_eq!(parse_numeral(b"7"), Ok(7));
    assert_eq!(parse_numeral(b"100"), Ok(100));
    assert_eq!(parse_numeral(b"-5"), Ok(-5));
    assert_eq!(parse_numeral(b"-0"), Ok(0));
    assert_eq!(parse_numeral(b"2147483647"), Ok(i32::MAX));
    assert_eq!(parse_numeral(b"-2147483648"), Ok(i32::MIN));
}

#[test]
fn leading_zeros_do_not_change_a_numeral() {
    assert_eq!(parse_numeral(b"007"), Ok(7));
    assert_eq!(parse_numeral(b"00000000000000000000002147483647"), Ok(i32::MAX));
    assert_eq!(parse_numeral(b"-00000000000000000000002147483648"), Ok(i32::MIN));
}

#[test]
fn numerals_out_of_range_give_the_side_they_left_it_on() {
    assert_eq!(parse_numeral(b"2147483648"), Err(IntError::PosOverflow));
    assert_eq!(parse_numeral(b"99999999999"), Err(IntError::PosOverflow));
    assert_eq!(parse_numeral(b"-2147483649"), Err(IntError::NegOverflow));
    assert_eq!(
        parse_numeral(b"123456789012345678901234567890123456789012345678901234567890"),
        Err(IntError::PosOverflow)
    );
    assert_eq!(
        parse_numeral(b"-123456789012345678901234567890123456789012345678901234567890"),
        Err(IntError::NegOverflow)
    );
}

#[test]
fn a_numeral_matches_what_the_standard_library_reads() {
    let numerals = [
        "0", "1", "-1", "42", "-42", "2147483646", "2147483647", "2147483648", "-2147483647",
        "-2147483648", "-2147483649", "4294967296", "0000", "-0000", "10000000000",
    ];
    for numeral in numerals {
        assert_eq!(parse_numeral(numeral.as_bytes()).ok(), numeral.parse::<i32>().ok());
    }
}

#[test]
fn a_scanner_starts_with_an_empty_span() {
    let scanner = Scanner::new("12+3");
    assert_eq!(scanner.span(), 0..0);
    assert_eq!(scanner.slice(), b"");
}

#[test]
fn a_scanner_reads_one_lexeme_at_a_time() {
    let mut scanner = Scanner::new("12+x-3");
    assert_eq!(scanner.scan(), Some(LogosToken::Number));
    assert_eq!(scanner.span(), 0..2);
    assert_eq!(scanner.slice(), b"12");
    assert_eq!(scanner.scan(), Some(LogosToken::Plus));
    assert_eq!(scanner.span(), 2..3);
    assert_eq!(scanner.slice(), b"+");
    assert_eq!(scanner.scan(), Some(LogosToken::Error));
    assert_eq!(scanner.span(), 3..4);
    assert_eq!(scanner.slice(), b"x");
    assert_eq!(scanner.scan(), Some(LogosToken::Number));
    assert_eq!(scanner.span(), 4..6);
    assert_eq!(scanner.slice(), b"-3");
    assert_eq!(scanner.scan(), None);
    assert_eq!(scanner.span(), 6..6);
    assert_eq!(scanner.slice(), b"");
}

#[test]
fn a_scanner_at_the_end_stays_there() {
    let mut scanner = Scanner::new("+");
    assert_eq!(scanner.scan(), Some(LogosToken::Plus));
    assert_eq!(scanner.scan(), None);
    assert_eq!(scanner.scan(), None);
    assert_eq!(scanner.span(), 1..1);
}
