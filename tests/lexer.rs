use arith_parser::lexer::{ParseError, Parser, Token};
use arith_parser::lexer::is_whitespace;
use std::collections::VecDeque;

#[test]
fn parser_init_test() {
    assert_eq!(
        Parser {
            chars: VecDeque::from(['1', '+', '2']),
            look: None
        },
        Parser::new("1+2")
    );
}

#[test]
fn parser_init_test_2() {
    assert_eq!(
        Parser {
            chars: VecDeque::from(['1', '2', '+', '3']),
            look: None
        },
        Parser::new("12+3")
    );
}

#[test]
fn scan_test() {
    let parser = &mut Parser::new("1+2");
    let token_0 = parser.look.clone();
    let _ = parser.scan();
    let token_1 = parser.look.clone();
    let _ = parser.scan();
    let token_2 = parser.look.clone();
    let _ = parser.scan();
    let token_3 = parser.look.clone();
    let _ = parser.scan();
    let token_4 = parser.look.clone();

    assert_eq!(token_0, None);
    assert_eq!(token_1.unwrap(), Token::Number(1));
    assert_eq!(token_2.unwrap(), Token::Add);
    assert_eq!(token_3.unwrap(), Token::Number(2));
    assert_eq!(token_4, None);
}

#[test]
fn scan_reads_multi_digit_run_as_one_number() {
    let mut parser = Parser::new("4096)");
    assert_eq!(parser.scan(), Ok(Some(Token::Number(4096))));
    assert_eq!(parser.look, Some(Token::Number(4096)));
    assert_eq!(parser.chars, VecDeque::from([')']));
    assert_eq!(parser.scan(), Ok(Some(Token::Rparen)));
    assert_eq!(parser.scan(), Ok(None));
}

#[test]
fn scan_keeps_leading_zeros_value() {
    let mut parser = Parser::new("007");
    assert_eq!(parser.scan(), Ok(Some(Token::Number(7))));
}

#[test]
fn scan_skips_unicode_whitespace() {
    let mut parser = Parser::new("\t\u{3000} 5\n");
    assert_eq!(parser.scan(), Ok(Some(Token::Number(5))));
    assert_eq!(parser.scan(), Ok(None));
}

#[test]
fn scan_reads_every_symbol() {
    let mut parser = Parser::new("+-*/()");
    assert_eq!(parser.scan(), Ok(Some(Token::Add)));
    assert_eq!(parser.scan(), Ok(Some(Token::Sub)));
    assert_eq!(parser.scan(), Ok(Some(Token::Mul)));
    assert_eq!(parser.scan(), Ok(Some(Token::Div)));
    assert_eq!(parser.scan(), Ok(Some(Token::Lparen)));
    assert_eq!(parser.scan(), Ok(Some(Token::Rparen)));
    assert_eq!(parser.scan(), Ok(None));
}

#[test]
fn scan_rejects_unknown_char() {
    let mut parser = Parser::new(" @1");
    assert_eq!(parser.scan(), Err(ParseError::UnexpectedChar('@')));
    assert_eq!(parser.look, None);
}

#[test]
fn scan_largest_number() {
    let mut parser = Parser::new("18446744073709551615");
    assert_eq!(parser.scan(), Ok(Some(Token::Number(usize::MAX))));
}

#[test]
fn scan_number_overflow() {
    let mut parser = Parser::new("18446744073709551616");
    assert_eq!(parser.scan(), Err(ParseError::NumberOverflow));
    let mut parser = Parser::new("99999999999999999999999+1");
    assert_eq!(parser.scan(), Err(ParseError::NumberOverflow));
}

#[test]
fn whitespace_classification() {
    assert!(is_whitespace(' '));
    assert!(is_whitespace('\u{a0}'));
    assert!(is_whitespace('\u{2009}'));
    assert!(!is_whitespace('7'));
    assert!(!is_whitespace('+'));
    assert!(!is_whitespace('\u{200b}'));
}
