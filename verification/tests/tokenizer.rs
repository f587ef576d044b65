use sum_parser::{Error, IntError, Lexer, LogosToken, Token};

fn all_tokens(input: &str) -> (Vec<(usize, Token, usize)>, Vec<Error>) {
    let mut lexer = Lexer::new(input);
    let mut tokens = Vec::new();
    while let Some(triple) = lexer.next() {
        tokens.push(triple);
    }
    (tokens, lexer.into_errors())
}

#[test]
fn digit_runs_and_pluses_give_one_token_each() {
    let (tokens, errors) = all_tokens("1+2+3+4+100");
    assert_eq!(
        tokens,
        vec![
            (0, Token::Number(1), 1),
            (1, Token::Plus, 2),
            (2, Token::Number(2), 3),
            (3, Token::Plus, 4),
            (4, Token::Number(3), 5),
            (5, Token::Plus, 6),
            (6, Token::Number(4), 7),
            (7, Token::Plus, 8),
            (8, Token::Number(100), 11),
        ]
    );
    assert_eq!(errors, vec![]);
}

#[test]
fn a_long_digit_run_is_one_token() {
    let (tokens, errors) = all_tokens("2147483647+0012");
    assert_eq!(
        tokens,
        vec![(0, Token::Number(2147483647), 10), (10, Token::Plus, 11), (11, Token::Number(12), 15)]
    );
    assert_eq!(errors, vec![]);
}

#[test]
fn pluses_alone_give_a_token_each() {
    let (tokens, errors) = all_tokens("++");
    assert_eq!(tokens, vec![(0, Token::Plus, 1), (1, Token::Plus, 2)]);
    assert_eq!(errors, vec![]);
}

#[test]
fn an_empty_text_gives_nothing() {
    let (tokens, errors) = all_tokens("");
    assert_eq!(tokens, vec![]);
    assert_eq!(errors, vec![]);
}

#[test]
fn an_unknown_character_is_passed_over_and_recorded() {
    let (tokens, errors) = all_tokens("1+x");
    assert_eq!(tokens, vec![(0, Token::Number(1), 1), (1, Token::Plus, 2)]);
    assert_eq!(errors, vec![Error::InvalidToken(2..3)]);
}

#[test]
fn an_unknown_character_of_several_bytes_is_one_diagnostic() {
    let (tokens, errors) = all_tokens("1+\u{e9}2\u{1f600}");
    assert_eq!(tokens, vec![(0, Token::Number(1), 1), (1, Token::Plus, 2), (4, Token::Number(2), 5)]);
    assert_eq!(errors, vec![Error::InvalidToken(2..4), Error::InvalidToken(5..9)]);
}

#[test]
fn each_unknown_character_is_a_diagnostic_of_its_own() {
    let (tokens, errors) = all_tokens("ab 1");
    assert_eq!(tokens, vec![(3, Token::Number(1), 4)]);
    assert_eq!(
        errors,
        vec![Error::InvalidToken(0..1), Error::InvalidToken(1..2), Error::InvalidToken(2..3)]
    );
}

#[test]
fn a_numeral_out_of_range_is_passed_over_and_recorded() {
    let (tokens, errors) = all_tokens("99999999999+1");
    assert_eq!(tokens, vec![(11, Token::Plus, 12), (12, Token::Number(1), 13)]);
    assert_eq!(errors, vec![Error::InvalidInt(0..11, IntError::PosOverflow)]);
}

#[test]
fn a_negative_numeral_out_of_range_is_recorded_as_such() {
    let (tokens, errors) = all_tokens("1+-2147483649");
    assert_eq!(tokens, vec![(0, Token::Number(1), 1), (1, Token::Plus, 2)]);
    assert_eq!(errors, vec![Error::InvalidInt(2..13, IntError::NegOverflow)]);
}

#[test]
fn the_bounds_of_the_range_are_numbers() {
    let (tokens, errors) = all_tokens("-2147483648+2147483647");
    assert_eq!(
        tokens,
        vec![
            (0, Token::Number(i32::MIN), 11),
            (11, Token::Plus, 12),
            (12, Token::Number(i32::MAX), 22),
        ]
    );
    assert_eq!(errors, vec![]);
}

#[test]
fn a_minus_belongs_to_the_digits_after_it() {
    let (tokens, errors) = all_tokens("1-5");
    assert_eq!(tokens, vec![(0, Token::Number(1), 1), (1, Token::Number(-5), 3)]);
    assert_eq!(errors, vec![]);
}

#[test]
fn a_minus_without_digits_is_an_unknown_character() {
    let (tokens, errors) = all_tokens("1-+-");
    assert_eq!(tokens, vec![(0, Token::Number(1), 1), (2, Token::Plus, 3)]);
    assert_eq!(errors, vec![Error::InvalidToken(1..2), Error::InvalidToken(3..4)]);
}

#[test]
fn diagnostics_keep_the_order_of_the_text() {
    let (tokens, errors) = all_tokens("x+99999999999y+-");
    assert_eq!(tokens, vec![(1, Token::Plus, 2), (14, Token::Plus, 15)]);
    assert_eq!(
        errors,
        vec![
            Error::InvalidToken(0..1),
            Error::InvalidInt(2..13, IntError::PosOverflow),
            Error::InvalidToken(13..14),
            Error::InvalidToken(15..16),
        ]
    );
}

#[test]
fn diagnostics_are_recorded_as_the_tokens_are_asked_for() {
    let mut lexer = Lexer::new("x1y");
    assert_eq!(lexer.next(), Some((1, Token::Number(1), 2)));
    assert_eq!(lexer.into_errors(), vec![Error::InvalidToken(0..1)]);
}

#[test]
fn the_end_once_reached_stays() {
    let mut lexer = Lexer::new("1+x");
    assert_eq!(lexer.next(), Some((0, Token::Number(1), 1)));
    assert_eq!(lexer.next(), Some((1, Token::Plus, 2)));
    assert_eq!(lexer.next(), None);
    assert_eq!(lexer.next(), None);
    assert_eq!(lexer.next(), None);
    assert_eq!(lexer.into_errors(), vec![Error::InvalidToken(2..3)]);
}

#[test]
fn the_end_of_an_empty_text_stays() {
    let mut lexer = Lexer::new("");
    assert_eq!(lexer.next(), None);
    assert_eq!(lexer.next(), None);
    assert_eq!(lexer.into_errors(), vec![]);
}

#[test]
fn convert_takes_a_plus() {
    let mut lexer = Lexer::new("+");
    assert_eq!(lexer.next(), Some((0, Token::Plus, 1)));
    assert_eq!(lexer.convert(LogosToken::Plus), Ok(Token::Plus));
}

#[test]
fn convert_reads_the_numeral_under_the_span() {
    let mut lexer = Lexer::new("12+345");
    assert_eq!(lexer.next(), Some((0, Token::Number(12), 2)));
    assert_eq!(lexer.convert(LogosToken::Number), Ok(Token::Number(12)));
    assert_eq!(lexer.next(), Some((2, Token::Plus, 3)));
    assert_eq!(lexer.next(), Some((3, Token::Number(345), 6)));
    assert_eq!(lexer.convert(LogosToken::Number), Ok(Token::Number(345)));
}

#[test]
fn convert_gives_an_error_the_span_of_the_lexeme() {
    let mut lexer = Lexer::new("12+345");
    assert_eq!(lexer.convert(LogosToken::Error), Err(Error::InvalidToken(0..0)));
    assert_eq!(lexer.next(), Some((0, Token::Number(12), 2)));
    assert_eq!(lexer.convert(LogosToken::Error), Err(Error::InvalidToken(0..2)));
}

#[test]
fn convert_changes_nothing() {
    let mut lexer = Lexer::new("1+2");
    assert_eq!(lexer.next(), Some((0, Token::Number(1), 1)));
    assert_eq!(lexer.convert(LogosToken::Error), Err(Error::InvalidToken(0..1)));
    assert_eq!(lexer.next(), Some((1, Token::Plus, 2)));
    assert_eq!(lexer.next(), Some((2, Token::Number(2), 3)));
    assert_eq!(lexer.into_errors(), vec![]);
}
